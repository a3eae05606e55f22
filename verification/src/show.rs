//! Short forms for logs: the `Debug` text of ids, proposals, messages and
//! effects, in which values and commands appear by their sizes.

use core::fmt;

use vstd::prelude::*;

use crate::replica::Action;
use crate::types::{CommandId, Proposal, ReplicaId, Slot};
use crate::wire::Message;

verus! {

/// `core::fmt::Formatter`, which text is handed to.
#[verifier::external_type_specification]
#[verifier::external_body]
pub struct ExFormatter<'a>(fmt::Formatter<'a>);

/// `core::fmt::Error`, what a formatter that refuses text answers.
#[verifier::external_type_specification]
#[verifier::external_body]
pub struct ExError(fmt::Error);

/// Hands `text` to the formatter as it is, by `Formatter::write_str`. Nothing
/// is claimed: what becomes of the text, and whether it is refused, is up to
/// whoever formats.
#[verifier::external_body]
fn put_text(f: &mut fmt::Formatter<'_>, text: &str) -> (r: fmt::Result) {
    f.write_str(text)
}

/// Hands the decimal digits of `n` to the formatter, by
/// `Formatter::write_fmt`. Nothing is claimed, as of `put_text`.
#[verifier::external_body]
fn put_number(f: &mut fmt::Formatter<'_>, n: u64) -> (r: fmt::Result) {
    write!(f, "{}", n)
}

/// Hands the hexadecimal digits of `n` to the formatter, by
/// `Formatter::write_fmt`. Nothing is claimed, as of `put_text`.
#[verifier::external_body]
fn put_hex(f: &mut fmt::Formatter<'_>, n: u64) -> (r: fmt::Result) {
    write!(f, "{:x}", n)
}

fn show_replica(f: &mut fmt::Formatter<'_>, id: &ReplicaId) -> (r: fmt::Result) {
    put_text(f, "r")?;
    put_number(f, id.0)
}

fn show_slot(f: &mut fmt::Formatter<'_>, slot: &Slot) -> (r: fmt::Result) {
    put_text(f, "slot")?;
    put_number(f, slot.0)
}

fn show_message(f: &mut fmt::Formatter<'_>, message: &Message) -> (r: fmt::Result) {
    put_text(f, "Message(")?;
    put_text(f, message.payload.kind_name())?;
    put_text(f, " from=")?;
    show_replica(f, &message.from)?;
    put_text(f, " decided=")?;
    put_number(f, message.decided.0)?;
    put_text(f, ")")
}

impl fmt::Debug for ReplicaId {
    fn fmt(&self, f: &mut fmt::Formatter<'_>) -> (r: fmt::Result) {
        show_replica(f, self)
    }
}

impl fmt::Debug for Slot {
    fn fmt(&self, f: &mut fmt::Formatter<'_>) -> (r: fmt::Result) {
        show_slot(f, self)
    }
}

impl fmt::Debug for CommandId {
    fn fmt(&self, f: &mut fmt::Formatter<'_>) -> (r: fmt::Result) {
        put_text(f, "cmd(")?;
        show_replica(f, &self.origin)?;
        put_text(f, ",")?;
        put_hex(f, self.boot)?;
        put_text(f, ",")?;
        put_number(f, self.seq)?;
        put_text(f, ")")
    }
}

impl fmt::Debug for Proposal {
    fn fmt(&self, f: &mut fmt::Formatter<'_>) -> (r: fmt::Result) {
        put_text(f, "prop(pri=")?;
        put_hex(f, self.priority as u64)?;
        put_text(f, ",")?;
        show_replica(f, &self.proposer)?;
        put_text(f, ",")?;
        put_number(f, self.value.len() as u64)?;
        put_text(f, "B)")
    }
}

impl fmt::Debug for Message {
    fn fmt(&self, f: &mut fmt::Formatter<'_>) -> (r: fmt::Result) {
        show_message(f, self)
    }
}

impl fmt::Debug for Action {
    fn fmt(&self, f: &mut fmt::Formatter<'_>) -> (r: fmt::Result) {
        match self {
            Action::Send { to, message } => {
                put_text(f, "Send(")?;
                show_replica(f, to)?;
                put_text(f, ", ")?;
                show_message(f, message)?;
                put_text(f, ")")
            },
            Action::Deliver { slot, commands } => {
                put_text(f, "Deliver(")?;
                show_slot(f, slot)?;
                put_text(f, ", ")?;
                put_number(f, commands.len() as u64)?;
                put_text(f, " commands)")
            },
        }
    }
}

} // verus!

//! The layout of messages and batches, byte by byte.

use vstd::prelude::*;

use crate::codec::{field_bytes, le_bytes, lemma_le_bytes};
use crate::types::{
    batch_bytes, batch_decoding_inverts_encoding, command_bytes, commands_bytes, parse_batch,
    Command, ProposalView,
};
use crate::wire::{
    message_decoding_inverts_encoding, parse_message, proposal_bytes, values_bytes, MessageView,
    PayloadView, ReplyFirstView,
};

verus! {

/// What is left of `x` without its `i` lowest bytes.
pub open spec fn above(x: nat, i: nat) -> nat
    decreases i,
{
    if i == 0 {
        x
    } else {
        above(x, (i - 1) as nat) / 256
    }
}

/// The `n` lowest digits of `x` to the base 256, the lowest first.
pub open spec fn digits(x: nat, n: nat) -> Seq<u8> {
    Seq::new(n, |i: int| (above(x, i as nat) % 256) as u8)
}

proof fn lemma_above(x: nat, i: nat)
    ensures
        above(x / 256, i) == above(x, i + 1),
    decreases i,
{
    if i > 0 {
        lemma_above(x, (i - 1) as nat);
    } else {
        assert(above(x, 1) == above(x, 0) / 256);
    }
}

proof fn lemma_digits(x: nat, n: nat)
    ensures
        le_bytes(x, n) == digits(x, n),
    decreases n,
{
    reveal(le_bytes);
    lemma_le_bytes(x, n);
    if n > 0 {
        let rest = digits(x / 256, (n - 1) as nat);
        lemma_digits(x / 256, (n - 1) as nat);
        assert forall|i: int| 0 <= i < n implies #[trigger] le_bytes(x, n)[i] == digits(
            x,
            n,
        )[i] by {
            if i > 0 {
                lemma_above(x, (i - 1) as nat);
                assert(le_bytes(x, n)[i] == rest[i - 1]);
            }
        }
        assert(le_bytes(x, n) =~= digits(x, n));
    } else {
        assert(le_bytes(x, n) =~= digits(x, n));
    }
}

/// A length in four bytes, then the data.
pub open spec fn sized(data: Seq<u8>) -> Seq<u8> {
    digits(data.len(), 4) + data
}

/// Priority in four bytes, proposer in eight, and the value.
pub open spec fn proposal_layout(p: ProposalView) -> Seq<u8> {
    digits(p.priority as nat, 4) + digits(p.proposer.0 as nat, 8) + sized(p.value)
}

/// Origin, boot and sequence number in eight bytes each, and the data.
pub open spec fn command_layout(c: Command) -> Seq<u8> {
    digits(c.0.origin.0 as nat, 8) + digits(c.0.boot as nat, 8) + digits(c.0.seq as nat, 8) + sized(
        c.1,
    )
}

pub open spec fn commands_layout(cs: Seq<Command>) -> Seq<u8>
    decreases cs.len(),
{
    if cs.len() == 0 {
        Seq::empty()
    } else {
        command_layout(cs[0]) + commands_layout(cs.drop_first())
    }
}

pub open spec fn values_layout(values: Seq<Seq<u8>>) -> Seq<u8>
    decreases values.len(),
{
    if values.len() == 0 {
        Seq::empty()
    } else {
        sized(values[0]) + values_layout(values.drop_first())
    }
}

/// One byte for the kind of message, and the fields of the payload.
pub open spec fn payload_layout(payload: PayloadView) -> (u8, Seq<u8>) {
    match payload {
        PayloadView::Record { slot, step, proposal } => (
            1,
            digits(slot.0 as nat, 8) + digits(step as nat, 4) + proposal_layout(proposal),
        ),
        PayloadView::RecordReply { slot, req_step, step, first, prior_agg } => (
            2,
            digits(slot.0 as nat, 8) + digits(req_step as nat, 4) + digits(step as nat, 4) + (
            match first {
                ReplyFirstView::Echo => seq![0u8],
                ReplyFirstView::Full(p) => seq![1u8] + proposal_layout(p),
            }) + (match prior_agg {
                None => seq![0u8],
                Some(p) => seq![1u8] + proposal_layout(p),
            }),
        ),
        PayloadView::Decide { slot, value } => (3, digits(slot.0 as nat, 8) + sized(value)),
        PayloadView::Forward { commands } => (
            4,
            digits(commands.len(), 4) + commands_layout(commands),
        ),
        PayloadView::Learn { from_slot } => (5, digits(from_slot.0 as nat, 8)),
        PayloadView::LearnReply { first_slot, values } => (
            6,
            digits(first_slot.0 as nat, 8) + digits(values.len(), 4) + values_layout(values),
        ),
        PayloadView::Ping => (7, Seq::empty()),
    }
}

/// The version, the kind, the sender and its watermark, then the payload.
pub open spec fn message_layout(m: MessageView) -> Seq<u8> {
    let (kind, fields) = payload_layout(m.payload);
    seq![1u8, kind] + digits(m.from.0 as nat, 8) + digits(m.decided.0 as nat, 8) + fields
}

/// A proposal that a message can hold: its priority and its proposer are not
/// zero, and its length fits in four bytes.
pub open spec fn proposal_passes(p: ProposalView) -> bool {
    p.priority > 0 && p.proposer.0 > 0 && p.value.len() < 0x1_0000_0000
}

pub open spec fn commands_pass(cs: Seq<Command>) -> bool {
    cs.len() < 0x1_0000_0000 && forall|i: int|
        0 <= i < cs.len() ==> (#[trigger] cs[i]).1.len() < 0x1_0000_0000
}

/// A message that passes: its sender is not zero, its proposals pass, and all
/// its lengths fit in four bytes.
pub open spec fn message_passes(m: MessageView) -> bool {
    m.from.0 > 0 && match m.payload {
        PayloadView::Record { proposal, .. } => proposal_passes(proposal),
        PayloadView::RecordReply { first, prior_agg, .. } => (match first {
            ReplyFirstView::Echo => true,
            ReplyFirstView::Full(p) => proposal_passes(p),
        }) && (match prior_agg {
            None => true,
            Some(p) => proposal_passes(p),
        }),
        PayloadView::Decide { value, .. } => value.len() < 0x1_0000_0000,
        PayloadView::Forward { commands } => commands_pass(commands),
        PayloadView::Learn { .. } => true,
        PayloadView::LearnReply { values, .. } => values.len() < 0x1_0000_0000 && forall|i: int|
            0 <= i < values.len() ==> (#[trigger] values[i]).len() < 0x1_0000_0000,
        PayloadView::Ping => true,
    }
}

proof fn lemma_sized(data: Seq<u8>)
    requires
        data.len() < 0x1_0000_0000,
    ensures
        field_bytes(data) == sized(data),
{
    lemma_digits(data.len(), 4);
}

proof fn lemma_proposal_layout(p: ProposalView)
    requires
        p.value.len() < 0x1_0000_0000,
    ensures
        proposal_bytes(p) == proposal_layout(p),
{
    lemma_digits(p.priority as nat, 4);
    lemma_digits(p.proposer.0 as nat, 8);
    lemma_sized(p.value);
}

proof fn lemma_commands_layout(cs: Seq<Command>)
    requires
        forall|i: int| 0 <= i < cs.len() ==> (#[trigger] cs[i]).1.len() < 0x1_0000_0000,
    ensures
        commands_bytes(cs) == commands_layout(cs),
    decreases cs.len(),
{
    if cs.len() > 0 {
        let c = cs[0];
        let rest = cs.drop_first();
        assert forall|i: int| 0 <= i < rest.len() implies (#[trigger] rest[i]).1.len()
            < 0x1_0000_0000 by {
            assert(rest[i] == cs[i + 1]);
        }
        lemma_commands_layout(rest);
        lemma_digits(c.0.origin.0 as nat, 8);
        lemma_digits(c.0.boot as nat, 8);
        lemma_digits(c.0.seq as nat, 8);
        lemma_sized(c.1);
        assert(command_bytes(c) == command_layout(c));
    }
}

proof fn lemma_values_layout(values: Seq<Seq<u8>>)
    requires
        forall|i: int| 0 <= i < values.len() ==> (#[trigger] values[i]).len() < 0x1_0000_0000,
    ensures
        values_bytes(values) == values_layout(values),
    decreases values.len(),
{
    if values.len() > 0 {
        let rest = values.drop_first();
        assert forall|i: int| 0 <= i < rest.len() implies (#[trigger] rest[i]).len()
            < 0x1_0000_0000 by {
            assert(rest[i] == values[i + 1]);
        }
        lemma_values_layout(rest);
        lemma_sized(values[0]);
    }
}

proof fn lemma_payload_layout(m: MessageView)
    requires
        message_passes(m),
    ensures
        m.payload.kind() == payload_layout(m.payload).0,
        m.payload.bytes() == payload_layout(m.payload).1,
{
    match m.payload {
        PayloadView::Record { slot, step, proposal } => {
            lemma_digits(slot.0 as nat, 8);
            lemma_digits(step as nat, 4);
            lemma_proposal_layout(proposal);
        },
        PayloadView::RecordReply { slot, req_step, step, first, prior_agg } => {
            lemma_digits(slot.0 as nat, 8);
            lemma_digits(req_step as nat, 4);
            lemma_digits(step as nat, 4);
            if let ReplyFirstView::Full(p) = first {
                lemma_proposal_layout(p);
            }
            if let Some(p) = prior_agg {
                lemma_proposal_layout(p);
            }
        },
        PayloadView::Decide { slot, value } => {
            lemma_digits(slot.0 as nat, 8);
            lemma_sized(value);
        },
        PayloadView::Forward { commands } => {
            lemma_digits(commands.len(), 4);
            lemma_commands_layout(commands);
        },
        PayloadView::Learn { from_slot } => {
            lemma_digits(from_slot.0 as nat, 8);
        },
        PayloadView::LearnReply { first_slot, values } => {
            lemma_digits(first_slot.0 as nat, 8);
            lemma_digits(values.len(), 4);
            lemma_values_layout(values);
        },
        PayloadView::Ping => {},
    }
}

/// Messages are laid out as version 1 has it: bytes are the message `m` exactly
/// if they are laid out that way and the message passes.
pub proof fn messages_are_laid_out(data: Seq<u8>, m: MessageView)
    ensures
        parse_message(data) == Some(m) <==> message_passes(m) && data == message_layout(m),
        message_passes(m) ==> m.bytes() == message_layout(m),
{
    message_decoding_inverts_encoding(data, m);
    assert(m.encodable() == message_passes(m));
    if message_passes(m) {
        lemma_payload_layout(m);
        lemma_digits(m.from.0 as nat, 8);
        lemma_digits(m.decided.0 as nat, 8);
        assert(m.bytes() =~= message_layout(m));
    }
}

/// Batches are laid out as a zero byte, the number of commands in four bytes,
/// and the commands: bytes are the batch `cs` exactly if they are laid out that
/// way and all lengths fit in four bytes.
pub proof fn batches_are_laid_out(value: Seq<u8>, cs: Seq<Command>)
    ensures
        parse_batch(value) == Some(cs) <==> commands_pass(cs) && value == seq![0u8] + digits(
            cs.len(),
            4,
        ) + commands_layout(cs),
        commands_pass(cs) ==> batch_bytes(cs) == seq![0u8] + digits(cs.len(), 4) + commands_layout(
            cs,
        ),
{
    batch_decoding_inverts_encoding(value, cs);
    if commands_pass(cs) {
        lemma_digits(cs.len(), 4);
        lemma_commands_layout(cs);
        assert(batch_bytes(cs) =~= seq![0u8] + digits(cs.len(), 4) + commands_layout(cs));
    }
}

} // verus!

//! The messages that replicas exchange and their wire format.

use vstd::prelude::*;

use crate::codec::{encode_bytes, put_u32, put_u64, Cursor};
use crate::codec::{field_bytes, take_field, take_u32, take_u64, take_u8, u32_bytes, u64_bytes};
use crate::codec::{
    lemma_take_field, lemma_take_field_sound, lemma_take_u32, lemma_take_u32_sound,
    lemma_take_u64, lemma_take_u64_sound, lemma_take_u8, lemma_take_u8_sound,
};
use crate::types::{
    bytes_from, commands_bytes, commands_fit, commands_of, decode_commands, encode_commands,
    lemma_take_commands, lemma_take_commands_sound, take_commands, Bytes, Command, CommandBatch,
    Proposal, ProposalView, ReplicaId, Slot,
};

verus! {

pub const VERSION: u8 = 1;

pub const KIND_RECORD: u8 = 1;

pub const KIND_RECORD_REPLY: u8 = 2;

pub const KIND_DECIDE: u8 = 3;

pub const KIND_FORWARD: u8 = 4;

pub const KIND_LEARN: u8 = 5;

pub const KIND_LEARN_REPLY: u8 = 6;

pub const KIND_PING: u8 = 7;

/// A protocol message exchanged between replicas of one group.
///
/// Messages are opaque to the application: it transports the bytes produced
/// by [`Message::encode`] to the replica named by
/// [`Action::Send`](crate::Action::Send) and feeds received bytes through
/// [`Message::decode`] into [`Replica::receive`](crate::Replica::receive).
/// The sender's identity travels inside the message, so the transport does
/// not need to authenticate or annotate it. Delivery may be lossy, reordered,
/// or duplicated; the protocol tolerates all three.
pub struct Message {
    /// Sending replica.
    pub from: ReplicaId,
    /// Sender's contiguous decided watermark, piggybacked on every message.
    /// Drives lagging-replica catch-up and retention GC.
    pub decided: Slot,
    pub payload: Payload,
}

#[derive(Debug)]
pub enum Payload {
    /// Proposer -> recorder: the ISR `record(step, proposal)` invocation for
    /// one slot.
    Record { slot: Slot, step: u32, proposal: Proposal },
    /// Recorder -> proposer: the ISR summary. `req_step` echoes the step of
    /// the `Record` this answers so the proposer can correlate replies over a
    /// lossy transport; `step`/`first`/`prior_agg` are the ISR's
    /// `(S, F_c, A_p)`.
    RecordReply {
        slot: Slot,
        req_step: u32,
        step: u32,
        first: ReplyFirst,
        prior_agg: Option<Proposal>,
    },
    /// The decided value of a slot. Broadcast once by a decider, and also a
    /// recorder's reply to any `Record` for an already-decided slot.
    Decide { slot: Slot, value: Bytes },
    /// Command forwarding to the (presumed) leader.
    Forward { commands: CommandBatch },
    /// Request for decided values starting at `from_slot`, sent by a replica
    /// that observed a higher decided watermark than its own.
    Learn { from_slot: Slot },
    /// Consecutive decided values for slots `first_slot..`, chunked by size.
    LearnReply { first_slot: Slot, values: Vec<Bytes> },
    /// Idle heartbeat: keeps decided watermarks flowing so catch-up and GC
    /// make progress when quiesced.
    Ping,
}

/// The `F_c` component of a `RecordReply`.
#[derive(Debug)]
pub enum ReplyFirst {
    /// `F_c` equals the proposal carried by the `Record` this reply answers.
    /// Elides the value bytes: on the fast path every recorder echoes the
    /// leader's own batch, which would otherwise return `n - 1` copies of it.
    Echo,
    /// `F_c` differs from the request's proposal and is carried in full.
    Full(Proposal),
}

/// Error returned by [`Message::decode`] for malformed input.
#[derive(Debug, Clone, Copy, PartialEq, Eq, Structural)]
pub struct WireError;

impl WireError {
    /// A human-readable description.
    pub fn message(&self) -> (r: &'static str)
        ensures
            r@ == "malformed raxos message"@,
    {
        "malformed raxos message"
    }
}

/// What a [`ReplyFirst`] holds.
#[verifier::ext_equal]
pub enum ReplyFirstView {
    Echo,
    Full(ProposalView),
}

/// What a [`Payload`] holds.
#[verifier::ext_equal]
pub enum PayloadView {
    Record { slot: Slot, step: u32, proposal: ProposalView },
    RecordReply {
        slot: Slot,
        req_step: u32,
        step: u32,
        first: ReplyFirstView,
        prior_agg: Option<ProposalView>,
    },
    Decide { slot: Slot, value: Seq<u8> },
    Forward { commands: Seq<Command> },
    Learn { from_slot: Slot },
    LearnReply { first_slot: Slot, values: Seq<Seq<u8>> },
    Ping,
}

/// What a [`Message`] holds.
#[verifier::ext_equal]
pub struct MessageView {
    pub from: ReplicaId,
    pub decided: Slot,
    pub payload: PayloadView,
}

/// What an optional proposal holds.
pub open spec fn proposal_opt(p: Option<Proposal>) -> Option<ProposalView> {
    match p {
        Some(x) => Some(x@),
        None => None,
    }
}

/// What a list of values holds.
pub open spec fn values_of(values: Seq<Bytes>) -> Seq<Seq<u8>> {
    values.map_values(|v: Bytes| v@)
}

impl View for ReplyFirst {
    type V = ReplyFirstView;

    open spec fn view(&self) -> ReplyFirstView {
        match self {
            ReplyFirst::Echo => ReplyFirstView::Echo,
            ReplyFirst::Full(p) => ReplyFirstView::Full(p@),
        }
    }
}

impl View for Payload {
    type V = PayloadView;

    open spec fn view(&self) -> PayloadView {
        match self {
            Payload::Record { slot, step, proposal } => PayloadView::Record {
                slot: *slot,
                step: *step,
                proposal: proposal@,
            },
            Payload::RecordReply { slot, req_step, step, first, prior_agg } =>
            PayloadView::RecordReply {
                slot: *slot,
                req_step: *req_step,
                step: *step,
                first: first@,
                prior_agg: proposal_opt(*prior_agg),
            },
            Payload::Decide { slot, value } => PayloadView::Decide { slot: *slot, value: value@ },
            Payload::Forward { commands } => PayloadView::Forward {
                commands: commands_of(commands@),
            },
            Payload::Learn { from_slot } => PayloadView::Learn { from_slot: *from_slot },
            Payload::LearnReply { first_slot, values } => PayloadView::LearnReply {
                first_slot: *first_slot,
                values: values_of(values@),
            },
            Payload::Ping => PayloadView::Ping,
        }
    }
}

impl View for Message {
    type V = MessageView;

    open spec fn view(&self) -> MessageView {
        MessageView { from: self.from, decided: self.decided, payload: self.payload@ }
    }
}

/// The encoding of a proposal.
pub open spec fn proposal_bytes(p: ProposalView) -> Seq<u8> {
    u32_bytes(p.priority) + u64_bytes(p.proposer.0) + field_bytes(p.value)
}

/// A proposal that decoding accepts: priority 0 and replica id 0 are
/// reserved, and the value's length fits its field.
pub open spec fn proposal_encodable(p: ProposalView) -> bool {
    p.priority != 0 && p.proposer.0 != 0 && p.value.len() <= u32::MAX
}

/// The encodings of `values`, one after the other.
pub open spec fn values_bytes(values: Seq<Seq<u8>>) -> Seq<u8>
    decreases values.len(),
{
    if values.len() == 0 {
        Seq::empty()
    } else {
        field_bytes(values[0]) + values_bytes(values.drop_first())
    }
}

impl ReplyFirstView {
    pub open spec fn bytes(self) -> Seq<u8> {
        match self {
            ReplyFirstView::Echo => seq![0u8],
            ReplyFirstView::Full(p) => seq![1u8] + proposal_bytes(p),
        }
    }

    pub open spec fn encodable(self) -> bool {
        self matches ReplyFirstView::Full(p) ==> proposal_encodable(p)
    }
}

/// The encoding of an optional proposal: a presence byte, then the proposal.
pub open spec fn optional_bytes(p: Option<ProposalView>) -> Seq<u8> {
    match p {
        None => seq![0u8],
        Some(x) => seq![1u8] + proposal_bytes(x),
    }
}

impl PayloadView {
    /// The byte that names the kind of payload.
    pub open spec fn kind(self) -> u8 {
        match self {
            PayloadView::Record { .. } => KIND_RECORD,
            PayloadView::RecordReply { .. } => KIND_RECORD_REPLY,
            PayloadView::Decide { .. } => KIND_DECIDE,
            PayloadView::Forward { .. } => KIND_FORWARD,
            PayloadView::Learn { .. } => KIND_LEARN,
            PayloadView::LearnReply { .. } => KIND_LEARN_REPLY,
            PayloadView::Ping => KIND_PING,
        }
    }

    /// The encoding of the payload's fields.
    pub open spec fn bytes(self) -> Seq<u8> {
        match self {
            PayloadView::Record { slot, step, proposal } => u64_bytes(slot.0) + u32_bytes(step)
                + proposal_bytes(proposal),
            PayloadView::RecordReply { slot, req_step, step, first, prior_agg } => u64_bytes(
                slot.0,
            ) + u32_bytes(req_step) + u32_bytes(step) + first.bytes() + optional_bytes(prior_agg),
            PayloadView::Decide { slot, value } => u64_bytes(slot.0) + field_bytes(value),
            PayloadView::Forward { commands } => u32_bytes(commands.len() as u32)
                + commands_bytes(commands),
            PayloadView::Learn { from_slot } => u64_bytes(from_slot.0),
            PayloadView::LearnReply { first_slot, values } => u64_bytes(first_slot.0) + u32_bytes(
                values.len() as u32,
            ) + values_bytes(values),
            PayloadView::Ping => Seq::empty(),
        }
    }

    /// Whether decoding gives the payload back from its encoding: every
    /// length fits its 32-bit field, and no reserved number is used.
    pub open spec fn encodable(self) -> bool {
        match self {
            PayloadView::Record { proposal, .. } => proposal_encodable(proposal),
            PayloadView::RecordReply { first, prior_agg, .. } => first.encodable() && (
            prior_agg matches Some(p) ==> proposal_encodable(p)),
            PayloadView::Decide { value, .. } => value.len() <= u32::MAX,
            PayloadView::Forward { commands } => commands_fit(commands),
            PayloadView::Learn { .. } => true,
            PayloadView::LearnReply { values, .. } => values_fit(values),
            PayloadView::Ping => true,
        }
    }
}

/// Whether the 32-bit length fields can hold every length in `values`.
pub open spec fn values_fit(values: Seq<Seq<u8>>) -> bool {
    &&& values.len() <= u32::MAX
    &&& forall|i: int| 0 <= i < values.len() ==> (#[trigger] values[i]).len() <= u32::MAX
}

impl MessageView {
    /// The encoding of the message: version, kind, sender, watermark, and the
    /// payload's fields.
    pub open spec fn bytes(self) -> Seq<u8> {
        seq![VERSION] + seq![self.payload.kind()] + u64_bytes(self.from.0) + u64_bytes(
            self.decided.0,
        ) + self.payload.bytes()
    }

    /// Whether decoding gives the message back from its encoding.
    pub open spec fn encodable(self) -> bool {
        self.from.0 != 0 && self.payload.encodable()
    }
}

/// Reads a proposal off the front of `b`.
pub open spec fn take_proposal(b: Seq<u8>) -> Option<(ProposalView, Seq<u8>)> {
    match take_u32(b) {
        None => None,
        Some((priority, b1)) => match take_u64(b1) {
            None => None,
            Some((proposer, b2)) => if priority == 0 || proposer == 0 {
                None
            } else {
                match take_field(b2) {
                    None => None,
                    Some((value, b3)) => Some(
                        (ProposalView { priority, proposer: ReplicaId(proposer), value }, b3),
                    ),
                }
            },
        },
    }
}

/// Reads a presence byte off the front of `b`, and a proposal where it is 1.
pub open spec fn take_optional(b: Seq<u8>) -> Option<(Option<ProposalView>, Seq<u8>)> {
    match take_u8(b) {
        None => None,
        Some((tag, b1)) => if tag == 0 {
            Some((None, b1))
        } else if tag == 1 {
            match take_proposal(b1) {
                None => None,
                Some((p, b2)) => Some((Some(p), b2)),
            }
        } else {
            None
        },
    }
}

/// Reads `n` length-prefixed values off the front of `b`.
pub open spec fn take_values(b: Seq<u8>, n: nat) -> Option<(Seq<Seq<u8>>, Seq<u8>)>
    decreases n,
{
    if n == 0 {
        Some((Seq::empty(), b))
    } else {
        match take_field(b) {
            None => None,
            Some((v, b1)) => match take_values(b1, (n - 1) as nat) {
                None => None,
                Some((vs, b2)) => Some((seq![v] + vs, b2)),
            },
        }
    }
}

/// Reads the fields of a `Record` off the front of `b`.
pub open spec fn take_record(b: Seq<u8>) -> Option<(PayloadView, Seq<u8>)> {
    match take_u64(b) {
        None => None,
        Some((slot, b1)) => match take_u32(b1) {
            None => None,
            Some((step, b2)) => match take_proposal(b2) {
                None => None,
                Some((proposal, b3)) => Some(
                    (PayloadView::Record { slot: Slot(slot), step, proposal }, b3),
                ),
            },
        },
    }
}

/// Reads the fields of a `RecordReply` off the front of `b`.
pub open spec fn take_record_reply(b: Seq<u8>) -> Option<(PayloadView, Seq<u8>)> {
    match take_u64(b) {
        None => None,
        Some((slot, b1)) => match take_u32(b1) {
            None => None,
            Some((req_step, b2)) => match take_u32(b2) {
                None => None,
                Some((step, b3)) => match take_optional(b3) {
                    None => None,
                    Some((first, b4)) => match take_optional(b4) {
                        None => None,
                        Some((prior_agg, b5)) => Some(
                            (
                                PayloadView::RecordReply {
                                    slot: Slot(slot),
                                    req_step,
                                    step,
                                    first: match first {
                                        None => ReplyFirstView::Echo,
                                        Some(p) => ReplyFirstView::Full(p),
                                    },
                                    prior_agg,
                                },
                                b5,
                            ),
                        ),
                    },
                },
            },
        },
    }
}

/// Reads the fields of a payload of kind `kind` off the front of `b`.
pub open spec fn take_payload(kind: u8, b: Seq<u8>) -> Option<(PayloadView, Seq<u8>)> {
    if kind == KIND_RECORD {
        take_record(b)
    } else if kind == KIND_RECORD_REPLY {
        take_record_reply(b)
    } else if kind == KIND_DECIDE {
        match take_u64(b) {
            None => None,
            Some((slot, b1)) => match take_field(b1) {
                None => None,
                Some((value, b2)) => Some((PayloadView::Decide { slot: Slot(slot), value }, b2)),
            },
        }
    } else if kind == KIND_FORWARD {
        match take_u32(b) {
            None => None,
            Some((count, b1)) => match take_commands(b1, count as nat) {
                None => None,
                Some((commands, b2)) => Some((PayloadView::Forward { commands }, b2)),
            },
        }
    } else if kind == KIND_LEARN {
        match take_u64(b) {
            None => None,
            Some((slot, b1)) => Some((PayloadView::Learn { from_slot: Slot(slot) }, b1)),
        }
    } else if kind == KIND_LEARN_REPLY {
        match take_u64(b) {
            None => None,
            Some((slot, b1)) => match take_u32(b1) {
                None => None,
                Some((count, b2)) => match take_values(b2, count as nat) {
                    None => None,
                    Some((values, b3)) => Some(
                        (PayloadView::LearnReply { first_slot: Slot(slot), values }, b3),
                    ),
                },
            },
        }
    } else if kind == KIND_PING {
        Some((PayloadView::Ping, b))
    } else {
        None
    }
}

/// The message that `data` is the encoding of, if it is one.
pub open spec fn parse_message(data: Seq<u8>) -> Option<MessageView> {
    match take_u8(data) {
        None => None,
        Some((version, b1)) => if version != VERSION {
            None
        } else {
            match take_u8(b1) {
                None => None,
                Some((kind, b2)) => match take_u64(b2) {
                    None => None,
                    Some((from, b3)) => if from == 0 {
                        None
                    } else {
                        match take_u64(b3) {
                            None => None,
                            Some((decided, b4)) => match take_payload(kind, b4) {
                                None => None,
                                Some((payload, b5)) => if b5.len() == 0 {
                                    Some(
                                        MessageView {
                                            from: ReplicaId(from),
                                            decided: Slot(decided),
                                            payload,
                                        },
                                    )
                                } else {
                                    None
                                },
                            },
                        }
                    },
                },
            }
        },
    }
}

proof fn lemma_take_proposal(p: ProposalView, rest: Seq<u8>)
    requires
        proposal_encodable(p),
    ensures
        take_proposal(proposal_bytes(p) + rest) == Some((p, rest)),
{
    let b2 = field_bytes(p.value) + rest;
    let b1 = u64_bytes(p.proposer.0) + b2;
    lemma_take_u32(p.priority, b1);
    lemma_take_u64(p.proposer.0, b2);
    lemma_take_field(p.value, rest);
    assert(proposal_bytes(p) + rest =~= u32_bytes(p.priority) + b1);
}

proof fn lemma_take_proposal_sound(b: Seq<u8>)
    ensures
        take_proposal(b) matches Some((p, rest)) ==> proposal_encodable(p) && b == proposal_bytes(p)
            + rest,
{
    lemma_take_u32_sound(b);
    if let Some((priority, b1)) = take_u32(b) {
        lemma_take_u64_sound(b1);
        if let Some((proposer, b2)) = take_u64(b1) {
            lemma_take_field_sound(b2);
            if let Some((value, rest)) = take_field(b2) {
                let p = ProposalView { priority, proposer: ReplicaId(proposer), value };
                assert(b =~= proposal_bytes(p) + rest);
            }
        }
    }
}

proof fn lemma_take_optional(p: Option<ProposalView>, rest: Seq<u8>)
    requires
        p matches Some(x) ==> proposal_encodable(x),
    ensures
        take_optional(optional_bytes(p) + rest) == Some((p, rest)),
{
    match p {
        None => {
            lemma_take_u8(0, rest);
        },
        Some(x) => {
            lemma_take_u8(1, proposal_bytes(x) + rest);
            lemma_take_proposal(x, rest);
            assert(optional_bytes(p) + rest =~= seq![1u8] + (proposal_bytes(x) + rest));
        },
    }
}

proof fn lemma_take_optional_sound(b: Seq<u8>)
    ensures
        take_optional(b) matches Some((p, rest)) ==> (p matches Some(x) ==> proposal_encodable(x))
            && b == optional_bytes(p) + rest,
{
    lemma_take_u8_sound(b);
    if let Some((tag, b1)) = take_u8(b) {
        lemma_take_proposal_sound(b1);
        if let Some((p, rest)) = take_proposal(b1) {
            if tag == 1 {
                assert(b =~= optional_bytes(Some(p)) + rest);
            }
        }
    }
}

proof fn lemma_take_values(vs: Seq<Seq<u8>>, rest: Seq<u8>)
    requires
        forall|i: int| 0 <= i < vs.len() ==> (#[trigger] vs[i]).len() <= u32::MAX,
    ensures
        take_values(values_bytes(vs) + rest, vs.len()) == Some((vs, rest)),
    decreases vs.len(),
{
    if vs.len() == 0 {
        assert(values_bytes(vs) + rest =~= rest);
        assert(vs =~= Seq::empty());
    } else {
        let tail = vs.drop_first();
        assert(values_bytes(vs) + rest =~= field_bytes(vs[0]) + (values_bytes(tail) + rest));
        lemma_take_field(vs[0], values_bytes(tail) + rest);
        assert forall|i: int| 0 <= i < tail.len() implies (#[trigger] tail[i]).len()
            <= u32::MAX by {
            assert(tail[i] == vs[i + 1]);
        }
        lemma_take_values(tail, rest);
        assert(seq![vs[0]] + tail =~= vs);
    }
}

proof fn lemma_take_values_sound(b: Seq<u8>, n: nat)
    ensures
        take_values(b, n) matches Some((vs, rest)) ==> {
            &&& vs.len() == n
            &&& forall|i: int| 0 <= i < vs.len() ==> (#[trigger] vs[i]).len() <= u32::MAX
            &&& b == values_bytes(vs) + rest
        },
    decreases n,
{
    if n == 0 {
        assert(b =~= values_bytes(Seq::<Seq<u8>>::empty()) + b);
    } else {
        lemma_take_field_sound(b);
        if let Some((v, b1)) = take_field(b) {
            lemma_take_values_sound(b1, (n - 1) as nat);
            if let Some((vs, rest)) = take_values(b1, (n - 1) as nat) {
                let all = seq![v] + vs;
                assert(all.drop_first() =~= vs);
                assert(b =~= values_bytes(all) + rest);
            }
        }
    }
}

proof fn lemma_values_bytes_push(vs: Seq<Seq<u8>>, v: Seq<u8>)
    ensures
        values_bytes(vs.push(v)) == values_bytes(vs) + field_bytes(v),
    decreases vs.len(),
{
    let all = vs.push(v);
    if vs.len() == 0 {
        assert(values_bytes(all.drop_first()) =~= Seq::empty());
        assert(values_bytes(all) =~= values_bytes(vs) + field_bytes(v));
    } else {
        assert(all.drop_first() =~= vs.drop_first().push(v));
        lemma_values_bytes_push(vs.drop_first(), v);
        assert(values_bytes(all) =~= values_bytes(vs) + field_bytes(v));
    }
}

proof fn lemma_take_record_reply(p: PayloadView, rest: Seq<u8>)
    requires
        p is RecordReply,
        p.encodable(),
    ensures
        take_record_reply(p.bytes() + rest) == Some((p, rest)),
{
    if let PayloadView::RecordReply { slot, req_step, step, first, prior_agg } = p {
        let b4 = optional_bytes(prior_agg) + rest;
        let b3 = first.bytes() + b4;
        let b2 = u32_bytes(step) + b3;
        let b1 = u32_bytes(req_step) + b2;
        assert(p.bytes() + rest =~= u64_bytes(slot.0) + b1);
        lemma_take_u64(slot.0, b1);
        lemma_take_u32(req_step, b2);
        lemma_take_u32(step, b3);
        let f = match first {
            ReplyFirstView::Echo => None,
            ReplyFirstView::Full(x) => Some(x),
        };
        assert(first.bytes() == optional_bytes(f));
        lemma_take_optional(f, b4);
        lemma_take_optional(prior_agg, rest);
    }
}

proof fn lemma_join(a: Seq<u8>, b: Seq<u8>, c: Seq<u8>, d: Seq<u8>, e: Seq<u8>, f: Seq<u8>)
    ensures
        a + (b + (c + (d + (e + f)))) == a + b + c + d + e + f,
{
    assert(a + (b + (c + (d + (e + f)))) =~= a + b + c + d + e + f);
}

proof fn lemma_take_record_reply_sound(b: Seq<u8>)
    ensures
        take_record_reply(b) matches Some((p, rest)) ==> p.kind() == KIND_RECORD_REPLY
            && p.encodable() && b == p.bytes() + rest,
{
    if let Some((p, rest)) = take_record_reply(b) {
        lemma_take_u64_sound(b);
        let (slot, b1) = take_u64(b)->0;
        lemma_take_u32_sound(b1);
        let (req_step, b2) = take_u32(b1)->0;
        lemma_take_u32_sound(b2);
        let (step, b3) = take_u32(b2)->0;
        lemma_take_optional_sound(b3);
        let (f, b4) = take_optional(b3)->0;
        lemma_take_optional_sound(b4);
        let (prior_agg, b5) = take_optional(b4)->0;
        let h1 = u64_bytes(slot);
        let h2 = u32_bytes(req_step);
        let h3 = u32_bytes(step);
        let h4 = optional_bytes(f);
        let h5 = optional_bytes(prior_agg);
        lemma_join(h1, h2, h3, h4, h5, b5);
    }
}

proof fn lemma_take_payload(p: PayloadView, rest: Seq<u8>)
    requires
        p.encodable(),
    ensures
        take_payload(p.kind(), p.bytes() + rest) == Some((p, rest)),
{
    match p {
        PayloadView::Record { slot, step, proposal } => {
            let b2 = proposal_bytes(proposal) + rest;
            let b1 = u32_bytes(step) + b2;
            lemma_take_u64(slot.0, b1);
            lemma_take_u32(step, b2);
            lemma_take_proposal(proposal, rest);
            assert(p.bytes() + rest =~= u64_bytes(slot.0) + b1);
        },
        PayloadView::RecordReply { .. } => {
            lemma_take_record_reply(p, rest);
        },
        PayloadView::Decide { slot, value } => {
            lemma_take_u64(slot.0, field_bytes(value) + rest);
            lemma_take_field(value, rest);
            assert(p.bytes() + rest =~= u64_bytes(slot.0) + (field_bytes(value) + rest));
        },
        PayloadView::Forward { commands } => {
            lemma_take_u32(commands.len() as u32, commands_bytes(commands) + rest);
            lemma_take_commands(commands, rest);
            assert(p.bytes() + rest =~= u32_bytes(commands.len() as u32) + (commands_bytes(commands)
                + rest));
        },
        PayloadView::Learn { from_slot } => {
            lemma_take_u64(from_slot.0, rest);
        },
        PayloadView::LearnReply { first_slot, values } => {
            let b2 = values_bytes(values) + rest;
            let b1 = u32_bytes(values.len() as u32) + b2;
            lemma_take_u64(first_slot.0, b1);
            lemma_take_u32(values.len() as u32, b2);
            lemma_take_values(values, rest);
            assert(p.bytes() + rest =~= u64_bytes(first_slot.0) + b1);
        },
        PayloadView::Ping => {
            assert(p.bytes() + rest =~= rest);
        },
    }
}

proof fn lemma_take_payload_sound(kind: u8, b: Seq<u8>)
    ensures
        take_payload(kind, b) matches Some((p, rest)) ==> p.kind() == kind && p.encodable() && b
            == p.bytes() + rest,
{
    if let Some((p, rest)) = take_payload(kind, b) {
        if kind == KIND_RECORD {
            lemma_take_u64_sound(b);
            let (slot, b1) = take_u64(b)->0;
            lemma_take_u32_sound(b1);
            let (step, b2) = take_u32(b1)->0;
            lemma_take_proposal_sound(b2);
            assert(b =~= p.bytes() + rest);
        } else if kind == KIND_RECORD_REPLY {
            lemma_take_record_reply_sound(b);
        } else if kind == KIND_DECIDE {
            lemma_take_u64_sound(b);
            let (slot, b1) = take_u64(b)->0;
            lemma_take_field_sound(b1);
            assert(b =~= p.bytes() + rest);
        } else if kind == KIND_FORWARD {
            lemma_take_u32_sound(b);
            let (count, b1) = take_u32(b)->0;
            lemma_take_commands_sound(b1, count as nat);
            assert(b =~= p.bytes() + rest);
        } else if kind == KIND_LEARN {
            lemma_take_u64_sound(b);
        } else if kind == KIND_LEARN_REPLY {
            lemma_take_u64_sound(b);
            let (slot, b1) = take_u64(b)->0;
            lemma_take_u32_sound(b1);
            let (count, b2) = take_u32(b1)->0;
            lemma_take_values_sound(b2, count as nat);
            assert(b =~= p.bytes() + rest);
        } else {
            assert(b =~= p.bytes() + rest);
        }
    }
}

proof fn lemma_parse_split(m: MessageView, rest: Seq<u8>)
    requires
        m.encodable(),
    ensures
        parse_message(m.bytes() + rest) == (if rest.len() == 0 {
            Some(m)
        } else {
            None
        }),
{
    let b4 = m.payload.bytes() + rest;
    let b3 = u64_bytes(m.decided.0) + b4;
    let b2 = u64_bytes(m.from.0) + b3;
    let b1 = seq![m.payload.kind()] + b2;
    lemma_take_u8(VERSION, b1);
    lemma_take_u8(m.payload.kind(), b2);
    lemma_take_u64(m.from.0, b3);
    lemma_take_u64(m.decided.0, b4);
    lemma_take_payload(m.payload, rest);
    lemma_regrouped(
        seq![VERSION],
        seq![m.payload.kind()],
        u64_bytes(m.from.0),
        u64_bytes(m.decided.0),
        m.payload.bytes(),
        rest,
    );
}

/// Joining pieces from the front or from the back gives the same.
proof fn lemma_regrouped(
    a: Seq<u8>,
    b: Seq<u8>,
    c: Seq<u8>,
    d: Seq<u8>,
    e: Seq<u8>,
    rest: Seq<u8>,
)
    ensures
        a + b + c + d + e + rest == a + (b + (c + (d + (e + rest)))),
{
    assert(a + b + c + d + e + rest =~= a + (b + (c + (d + (e + rest)))));
}

/// Bytes decode to a message exactly when they are that message's encoding
/// and the message is encodable.
pub proof fn message_decoding_inverts_encoding(data: Seq<u8>, m: MessageView)
    ensures
        parse_message(data) == Some(m) <==> m.encodable() && data == m.bytes(),
{
    if m.encodable() && data == m.bytes() {
        lemma_parse_split(m, Seq::empty());
        assert(m.bytes() + Seq::<u8>::empty() =~= m.bytes());
    }
    if parse_message(data) == Some(m) {
        lemma_take_u8_sound(data);
        let (version, b1) = take_u8(data)->0;
        lemma_take_u8_sound(b1);
        let (kind, b2) = take_u8(b1)->0;
        lemma_take_u64_sound(b2);
        let (from, b3) = take_u64(b2)->0;
        lemma_take_u64_sound(b3);
        let (decided, b4) = take_u64(b3)->0;
        lemma_take_payload_sound(kind, b4);
        let (payload, b5) = take_payload(kind, b4)->0;
        assert(b5 =~= Seq::empty());
        assert(data =~= m.bytes());
    }
}

/// No two encodable messages have the same encoding.
pub proof fn message_encoding_is_injective(a: MessageView, b: MessageView)
    requires
        a.encodable(),
        b.encodable(),
        a.bytes() == b.bytes(),
    ensures
        a == b,
{
    message_decoding_inverts_encoding(a.bytes(), a);
    message_decoding_inverts_encoding(a.bytes(), b);
}

/// Truncated input and trailing garbage are rejected: of two byte strings of
/// which one properly extends the other, at most one decodes.
pub proof fn message_encoding_is_prefix_free(data: Seq<u8>, extra: Seq<u8>)
    requires
        parse_message(data) is Some,
        extra.len() > 0,
    ensures
        parse_message(data + extra) is None,
{
    let m = parse_message(data)->0;
    message_decoding_inverts_encoding(data, m);
    lemma_parse_split(m, extra);
}

/// Appends the encoding of a proposal.
fn encode_proposal(out: &mut Vec<u8>, proposal: &Proposal)
    ensures
        final(out)@ == old(out)@ + proposal_bytes(proposal@),
{
    put_u32(out, proposal.priority);
    put_u64(out, proposal.proposer.0);
    encode_bytes(out, &proposal.value);
    assert(out@ =~= old(out)@ + proposal_bytes(proposal@));
}

/// Appends a presence byte, and the proposal where there is one.
fn encode_optional(out: &mut Vec<u8>, proposal: &Option<Proposal>)
    ensures
        final(out)@ == old(out)@ + optional_bytes(proposal_opt(*proposal)),
{
    match proposal {
        None => {
            out.push(0);
        },
        Some(p) => {
            out.push(1);
            encode_proposal(out, p);
        },
    }
    assert(out@ =~= old(out)@ + optional_bytes(proposal_opt(*proposal)));
}

/// Reads a length-prefixed byte string into a fresh handle.
fn decode_bytes(c: &mut Cursor<'_>) -> (r: Result<Bytes, WireError>)
    requires
        old(c).wf(),
    ensures
        final(c).wf(),
        match take_field(old(c).rest()) {
            Some((x, rest)) => r matches Ok(v) && v@ == x && final(c).rest() == rest,
            None => r is Err,
        },
{
    match c.field() {
        Some(data) => Ok(bytes_from(data)),
        None => Err(WireError),
    }
}

/// Reads a proposal, rejecting the reserved priority and proposer 0.
fn decode_proposal(c: &mut Cursor<'_>) -> (r: Result<Proposal, WireError>)
    requires
        old(c).wf(),
    ensures
        final(c).wf(),
        match take_proposal(old(c).rest()) {
            Some((x, rest)) => r matches Ok(p) && p@ == x && final(c).rest() == rest,
            None => r is Err,
        },
{
    let priority = c.u32().ok_or(WireError)?;
    let proposer = ReplicaId(c.u64().ok_or(WireError)?);
    if priority == 0 || proposer.0 == 0 {
        return Err(WireError);
    }
    let value = decode_bytes(c)?;
    Ok(Proposal { priority, proposer, value })
}

/// Reads a presence byte, and a proposal where it is 1.
fn decode_optional(c: &mut Cursor<'_>) -> (r: Result<Option<Proposal>, WireError>)
    requires
        old(c).wf(),
    ensures
        final(c).wf(),
        match take_optional(old(c).rest()) {
            Some((x, rest)) => r matches Ok(p) && proposal_opt(p) == x && final(c).rest() == rest,
            None => r is Err,
        },
{
    let tag = c.u8().ok_or(WireError)?;
    if tag == 0 {
        Ok(None)
    } else if tag == 1 {
        Ok(Some(decode_proposal(c)?))
    } else {
        Err(WireError)
    }
}

/// Reads `count` length-prefixed values.
fn decode_values(c: &mut Cursor<'_>, count: u32) -> (r: Result<Vec<Bytes>, WireError>)
    requires
        old(c).wf(),
    ensures
        final(c).wf(),
        match take_values(old(c).rest(), count as nat) {
            Some((vs, rest)) => r matches Ok(values) && values_of(values@) == vs
                && final(c).rest() == rest,
            None => r is Err,
        },
{
    let mut values: Vec<Bytes> = Vec::new();
    let mut k: u32 = 0;
    assert(values_of(values@) =~= Seq::empty());
    proof {
        if let Some((vs, rest)) = take_values(c.rest(), count as nat) {
            assert(values_of(values@) + vs =~= vs);
        }
    }
    while k < count
        invariant
            k <= count,
            c.wf(),
            take_values(old(c).rest(), count as nat) == (match take_values(
                c.rest(),
                (count - k) as nat,
            ) {
                Some((vs, rest)) => Some((values_of(values@) + vs, rest)),
                None => None,
            }),
        decreases count - k,
    {
        let value = decode_bytes(c)?;
        let ghost prev = values_of(values@);
        values.push(value);
        proof {
            assert(values_of(values@) =~= prev.push(value@));
            if let Some((vs, rest)) = take_values(c.rest(), (count - k - 1) as nat) {
                assert(prev + (seq![value@] + vs) =~= values_of(values@) + vs);
            }
        }
        k += 1;
    }
    assert(values_of(values@) + Seq::<Seq<u8>>::empty() =~= values_of(values@));
    Ok(values)
}

impl Payload {
    /// The byte that names the kind of payload.
    pub fn kind(&self) -> (r: u8)
        ensures
            r == self@.kind(),
    {
        match self {
            Payload::Record { .. } => KIND_RECORD,
            Payload::RecordReply { .. } => KIND_RECORD_REPLY,
            Payload::Decide { .. } => KIND_DECIDE,
            Payload::Forward { .. } => KIND_FORWARD,
            Payload::Learn { .. } => KIND_LEARN,
            Payload::LearnReply { .. } => KIND_LEARN_REPLY,
            Payload::Ping => KIND_PING,
        }
    }

    /// The name of the kind of payload.
    pub fn kind_name(&self) -> (r: &'static str)
        ensures
            r@ == (match self@ {
                PayloadView::Record { .. } => "Record"@,
                PayloadView::RecordReply { .. } => "RecordReply"@,
                PayloadView::Decide { .. } => "Decide"@,
                PayloadView::Forward { .. } => "Forward"@,
                PayloadView::Learn { .. } => "Learn"@,
                PayloadView::LearnReply { .. } => "LearnReply"@,
                PayloadView::Ping => "Ping"@,
            }),
    {
        match self {
            Payload::Record { .. } => "Record",
            Payload::RecordReply { .. } => "RecordReply",
            Payload::Decide { .. } => "Decide",
            Payload::Forward { .. } => "Forward",
            Payload::Learn { .. } => "Learn",
            Payload::LearnReply { .. } => "LearnReply",
            Payload::Ping => "Ping",
        }
    }

    /// Appends the encoding of the payload's fields.
    fn encode_fields(&self, out: &mut Vec<u8>)
        ensures
            final(out)@ == old(out)@ + self@.bytes(),
    {
        match self {
            Payload::Record { slot, step, proposal } => {
                put_u64(out, slot.0);
                put_u32(out, *step);
                encode_proposal(out, proposal);
            },
            Payload::RecordReply { slot, req_step, step, first, prior_agg } => {
                put_u64(out, slot.0);
                put_u32(out, *req_step);
                put_u32(out, *step);
                match first {
                    ReplyFirst::Echo => {
                        out.push(0);
                    },
                    ReplyFirst::Full(proposal) => {
                        out.push(1);
                        encode_proposal(out, proposal);
                    },
                }
                encode_optional(out, prior_agg);
            },
            Payload::Decide { slot, value } => {
                put_u64(out, slot.0);
                encode_bytes(out, value);
            },
            Payload::Forward { commands } => {
                put_u32(out, commands.len() as u32);
                encode_commands(out, commands);
            },
            Payload::Learn { from_slot } => {
                put_u64(out, from_slot.0);
            },
            Payload::LearnReply { first_slot, values } => {
                put_u64(out, first_slot.0);
                put_u32(out, values.len() as u32);
                encode_values(out, values);
            },
            Payload::Ping => {},
        }
        assert(out@ =~= old(out)@ + self@.bytes());
    }
}

/// Appends the encodings of `values`, one after the other.
fn encode_values(out: &mut Vec<u8>, values: &Vec<Bytes>)
    ensures
        final(out)@ == old(out)@ + values_bytes(values_of(values@)),
{
    let ghost vs = values_of(values@);
    let ghost start = out@;
    let mut i: usize = 0;
    assert(out@ =~= start + values_bytes(vs.take(0)));
    while i < values.len()
        invariant
            i <= values.len(),
            vs == values_of(values@),
            out@ == start + values_bytes(vs.take(i as int)),
        decreases values.len() - i,
    {
        encode_bytes(out, &values[i]);
        proof {
            lemma_values_bytes_push(vs.take(i as int), vs[i as int]);
            assert(vs.take(i as int).push(vs[i as int]) =~= vs.take(i + 1));
            assert(out@ =~= start + values_bytes(vs.take(i + 1)));
        }
        i += 1;
    }
    assert(vs.take(i as int) =~= vs);
}

/// Reads the fields of a payload of kind `kind`.
fn decode_payload(kind: u8, c: &mut Cursor<'_>) -> (r: Result<Payload, WireError>)
    requires
        old(c).wf(),
    ensures
        final(c).wf(),
        match take_payload(kind, old(c).rest()) {
            Some((p, rest)) => r matches Ok(payload) && payload@ == p && final(c).rest() == rest,
            None => r is Err,
        },
{
    match kind {
        KIND_RECORD => {
            let slot = Slot(c.u64().ok_or(WireError)?);
            let step = c.u32().ok_or(WireError)?;
            let proposal = decode_proposal(c)?;
            Ok(Payload::Record { slot, step, proposal })
        },
        KIND_RECORD_REPLY => {
            let slot = Slot(c.u64().ok_or(WireError)?);
            let req_step = c.u32().ok_or(WireError)?;
            let step = c.u32().ok_or(WireError)?;
            let first = match decode_optional(c)? {
                None => ReplyFirst::Echo,
                Some(proposal) => ReplyFirst::Full(proposal),
            };
            let prior_agg = decode_optional(c)?;
            Ok(Payload::RecordReply { slot, req_step, step, first, prior_agg })
        },
        KIND_DECIDE => {
            let slot = Slot(c.u64().ok_or(WireError)?);
            let value = decode_bytes(c)?;
            Ok(Payload::Decide { slot, value })
        },
        KIND_FORWARD => {
            let count = c.u32().ok_or(WireError)?;
            let commands = decode_commands(c, count).ok_or(WireError)?;
            Ok(Payload::Forward { commands })
        },
        KIND_LEARN => {
            let from_slot = Slot(c.u64().ok_or(WireError)?);
            Ok(Payload::Learn { from_slot })
        },
        KIND_LEARN_REPLY => {
            let first_slot = Slot(c.u64().ok_or(WireError)?);
            let count = c.u32().ok_or(WireError)?;
            let values = decode_values(c, count)?;
            Ok(Payload::LearnReply { first_slot, values })
        },
        KIND_PING => Ok(Payload::Ping),
        _ => Err(WireError),
    }
}

impl Message {
    /// Serializes this message for transport.
    pub fn encode(&self) -> (r: Vec<u8>)
        ensures
            r@ == self@.bytes(),
    {
        let mut out: Vec<u8> = Vec::with_capacity(64);
        out.push(VERSION);
        out.push(self.payload.kind());
        put_u64(&mut out, self.from.0);
        put_u64(&mut out, self.decided.0);
        self.payload.encode_fields(&mut out);
        assert(out@ =~= self@.bytes());
        out
    }

    /// Parses a message received from the transport.
    ///
    /// Rejects unknown versions and kinds, truncated input, and trailing
    /// garbage. Never panics on arbitrary input.
    pub fn decode(data: &[u8]) -> (r: Result<Message, WireError>)
        ensures
            match parse_message(data@) {
                Some(m) => r matches Ok(message) && message@ == m,
                None => r is Err,
            },
            r matches Ok(message) ==> message@.encodable() && data@ == message@.bytes(),
            r is Err ==> forall|m: MessageView| #[trigger] m.encodable() ==> data@ != m.bytes(),
    {
        proof {
            if let Some(m) = parse_message(data@) {
                message_decoding_inverts_encoding(data@, m);
            } else {
                assert forall|m: MessageView| #[trigger] m.encodable() implies data@
                    != m.bytes() by {
                    message_decoding_inverts_encoding(data@, m);
                }
            }
        }
        let mut c = Cursor::new(data);
        if c.u8().ok_or(WireError)? != VERSION {
            return Err(WireError);
        }
        let kind = c.u8().ok_or(WireError)?;
        let from = ReplicaId(c.u64().ok_or(WireError)?);
        if from.0 == 0 {
            return Err(WireError);
        }
        let decided = Slot(c.u64().ok_or(WireError)?);
        let payload = decode_payload(kind, &mut c)?;
        if !c.finished() {
            return Err(WireError);
        }
        Ok(Message { from, decided, payload })
    }
}

} // verus!

//! Identifiers, proposals and command batches.

use std::cmp::Ordering;
use std::sync::Arc;

use vstd::prelude::*;

use crate::codec::{encode_bytes, put_u32, put_u64, Cursor};
use crate::codec::{field_bytes, take_field, take_u32, take_u64, take_u8, u32_bytes, u64_bytes};
use crate::codec::{
    lemma_take_field, lemma_take_field_sound, lemma_take_u32, lemma_take_u32_sound,
    lemma_take_u64, lemma_take_u64_sound, lemma_take_u8, lemma_take_u8_sound,
};

verus! {

/// Identifies a replica within a consensus group.
///
/// Ids are assigned by the application, must be nonzero, and must be unique
/// within the group. All replicas of a group must be configured with the same
/// id set.
#[derive(Clone, Copy, PartialEq, Eq, PartialOrd, Ord, Hash, Structural)]
pub struct ReplicaId(pub u64);

/// A position in the replicated log.
///
/// Slots are decided independently and each decided slot has exactly one value
/// forever. The first slot is 1; slot 0 means "nothing decided yet".
#[derive(Clone, Copy, PartialEq, Eq, PartialOrd, Ord, Hash, Structural)]
pub struct Slot(pub u64);

impl Slot {
    pub fn next(self) -> (r: Slot)
        requires
            self.0 < u64::MAX,
        ensures
            r.0 == self.0 + 1,
    {
        Slot(self.0 + 1)
    }
}

/// Uniquely identifies a submitted command across the group.
///
/// `origin` is the replica the command was submitted at and `seq` is a
/// per-origin counter. `boot` distinguishes process restarts of the same
/// origin: it is derived from `Config::new`'s `rng_seed`, which therefore must
/// differ across restarts of the same replica (pass fresh entropy). Without
/// it, a restarted origin would reuse sequence numbers and its fresh commands
/// would be dropped as duplicates by delivery deduplication.
#[derive(Clone, Copy, PartialEq, Eq, PartialOrd, Ord, Hash, Structural)]
pub struct CommandId {
    /// Replica the command was submitted at.
    pub origin: ReplicaId,
    /// Process-restart nonce of the origin.
    pub boot: u64,
    /// Per-origin submission counter, starting at 1.
    pub seq: u64,
}

/// One process lifetime of a replica: whose commands a record is about.
#[derive(Clone, Copy, Debug, PartialEq, Eq, PartialOrd, Ord, Hash, Structural)]
pub struct Origin {
    pub replica: ReplicaId,
    pub boot: u64,
}

/// Proposal priorities. The maximum value is reserved for the leader's
/// round-1 fast path; 0 is the ISR nil value and is never sent.
pub type Priority = u32;

/// The reserved fast-path priority.
pub const PRIORITY_H: Priority = 0xffff_ffff;

/// Maximum size of a single command. Keeps every encoded batch far below
/// the wire format's u32 length fields even with the batch-size limit's
/// one-oversized-command allowance.
pub const MAX_COMMAND_BYTES: usize = 0x4000_0000;

/// Encoded overhead per command in a batch or Forward message: the id
/// (origin, boot, seq) plus the length prefix.
pub const COMMAND_WIRE_OVERHEAD: usize = 28;

/// Upper bound for the configurable batch-size limit.
pub const MAX_BATCH_BYTES_LIMIT: usize = 0x4000_0000;

/// Tag byte identifying the kind of a consensus value.
///
/// Tag 1 is reserved for internal schedule-change entries (leader
/// auto-tuning), which are not implemented yet; decoding rejects it.
pub const VALUE_TAG_BATCH: u8 = 0;

/// Immutable bytes, shared between the places that hold them.
pub type Bytes = Arc<Vec<u8>>;

/// Another handle on the same bytes.
///
/// Calls `Arc::clone`, of which std documents that it makes another pointer
/// to the same allocation. The contract claims that the new handle reads as
/// the same bytes.
#[verifier::external_body]
pub(crate) fn share(bytes: &Bytes) -> (r: Bytes)
    ensures
        r@ == bytes@,
{
    bytes.clone()
}

/// Lexicographic order of byte strings.
pub open spec fn bytes_lt(a: Seq<u8>, b: Seq<u8>) -> bool
    decreases a.len(),
{
    if b.len() == 0 {
        false
    } else if a.len() == 0 {
        true
    } else if a[0] != b[0] {
        a[0] < b[0]
    } else {
        bytes_lt(a.drop_first(), b.drop_first())
    }
}

proof fn lemma_bytes_irreflexive(a: Seq<u8>)
    ensures
        !bytes_lt(a, a),
    decreases a.len(),
{
    if a.len() > 0 {
        lemma_bytes_irreflexive(a.drop_first());
    }
}

proof fn lemma_bytes_transitive(a: Seq<u8>, b: Seq<u8>, c: Seq<u8>)
    requires
        bytes_lt(a, b),
        bytes_lt(b, c),
    ensures
        bytes_lt(a, c),
    decreases a.len(),
{
    if a.len() > 0 && b.len() > 0 && c.len() > 0 && a[0] == b[0] && b[0] == c[0] {
        lemma_bytes_transitive(a.drop_first(), b.drop_first(), c.drop_first());
    }
}

proof fn lemma_bytes_total(a: Seq<u8>, b: Seq<u8>)
    ensures
        a == b || bytes_lt(a, b) || bytes_lt(b, a),
    decreases a.len(),
{
    if a.len() == 0 && b.len() == 0 {
        assert(a =~= b);
    } else if a.len() > 0 && b.len() > 0 && a[0] == b[0] {
        lemma_bytes_total(a.drop_first(), b.drop_first());
        if a.drop_first() == b.drop_first() {
            assert(a =~= seq![a[0]] + a.drop_first());
            assert(b =~= seq![b[0]] + b.drop_first());
        }
    }
}

/// How two byte strings compare.
enum Order {
    Less,
    Equal,
    Greater,
}

/// Compares two byte strings lexicographically.
fn compare_bytes(a: &Vec<u8>, b: &Vec<u8>) -> (r: Order)
    ensures
        r == (if a@ == b@ {
            Order::Equal
        } else if bytes_lt(a@, b@) {
            Order::Less
        } else {
            Order::Greater
        }),
{
    let mut i: usize = 0;
    assert(a@.skip(0) =~= a@);
    assert(b@.skip(0) =~= b@);
    while i < a.len() && i < b.len()
        invariant
            i <= a.len(),
            i <= b.len(),
            bytes_lt(a@, b@) == bytes_lt(a@.skip(i as int), b@.skip(i as int)),
            a@.take(i as int) == b@.take(i as int),
        decreases a.len() - i,
    {
        if a[i] < b[i] {
            assert(a@[i as int] != b@[i as int]);
            return Order::Less;
        }
        if a[i] > b[i] {
            assert(a@[i as int] != b@[i as int]);
            return Order::Greater;
        }
        assert(a@.skip(i as int).drop_first() =~= a@.skip(i + 1));
        assert(b@.skip(i as int).drop_first() =~= b@.skip(i + 1));
        assert(a@.take(i + 1) =~= a@.take(i as int).push(a@[i as int]));
        assert(b@.take(i + 1) =~= b@.take(i as int).push(b@[i as int]));
        i += 1;
    }
    if a.len() < b.len() {
        return Order::Less;
    }
    if a.len() > b.len() {
        return Order::Greater;
    }
    assert(a@ =~= a@.take(i as int));
    assert(b@ =~= b@.take(i as int));
    Order::Equal
}

/// A prioritized proposal: the unit of consensus within one slot.
///
/// Ordered by `(priority, proposer, value bytes)`. The proposer component
/// makes ties between distinct replicas impossible; the value component keeps
/// the order total even if a restarted replica equivocates, which is outside
/// the crash-stop model but must not break recorder determinism.
#[derive(Eq)]
pub struct Proposal {
    pub priority: Priority,
    pub proposer: ReplicaId,
    pub value: Bytes,
}

/// What a [`Proposal`] holds.
#[verifier::ext_equal]
pub struct ProposalView {
    pub priority: Priority,
    pub proposer: ReplicaId,
    pub value: Seq<u8>,
}

impl View for Proposal {
    type V = ProposalView;

    open spec fn view(&self) -> ProposalView {
        ProposalView { priority: self.priority, proposer: self.proposer, value: self.value@ }
    }
}

impl ProposalView {
    /// The order of proposals: by priority, then proposer, then value bytes.
    pub open spec fn lt(self, other: ProposalView) -> bool {
        if self.priority != other.priority {
            self.priority < other.priority
        } else if self.proposer.0 != other.proposer.0 {
            self.proposer.0 < other.proposer.0
        } else {
            bytes_lt(self.value, other.value)
        }
    }

    pub open spec fn le(self, other: ProposalView) -> bool {
        self == other || self.lt(other)
    }
}

/// The larger of two proposals.
pub open spec fn larger(a: ProposalView, b: ProposalView) -> ProposalView {
    if a.lt(b) {
        b
    } else {
        a
    }
}

/// The larger of an optional and another proposal.
pub open spec fn larger_opt(a: Option<ProposalView>, b: ProposalView) -> ProposalView {
    match a {
        None => b,
        Some(x) => larger(x, b),
    }
}

/// The order of proposals is a strict total order: it is irreflexive,
/// transitive, and decides between any two different proposals.
pub proof fn proposal_order_is_total(a: ProposalView, b: ProposalView, c: ProposalView)
    ensures
        !a.lt(a),
        a == b || a.lt(b) || b.lt(a),
        !(a.lt(b) && b.lt(a)),
        a.lt(b) && b.lt(c) ==> a.lt(c),
{
    lemma_bytes_irreflexive(a.value);
    lemma_bytes_total(a.value, b.value);
    if a.lt(b) && b.lt(c) && a.priority == b.priority && b.priority == c.priority && a.proposer
        == b.proposer && b.proposer == c.proposer {
        lemma_bytes_transitive(a.value, b.value, c.value);
    }
    if a.lt(b) && b.lt(a) && a.priority == b.priority && a.proposer == b.proposer {
        lemma_bytes_transitive(a.value, b.value, a.value);
    }
}

impl Clone for Proposal {
    fn clone(&self) -> (r: Proposal)
        ensures
            r@ == self@,
    {
        Proposal { priority: self.priority, proposer: self.proposer, value: share(&self.value) }
    }
}

impl PartialEq for Proposal {
    fn eq(&self, other: &Proposal) -> (r: bool) {
        self.priority == other.priority && self.proposer == other.proposer && matches!(
            compare_bytes(&self.value, &other.value),
            Order::Equal
        )
    }
}

impl vstd::std_specs::cmp::PartialEqSpecImpl for Proposal {
    open spec fn obeys_eq_spec() -> bool {
        true
    }

    open spec fn eq_spec(&self, other: &Proposal) -> bool {
        self@ == other@
    }
}

impl PartialOrd for Proposal {
    fn partial_cmp(&self, other: &Proposal) -> (r: Option<Ordering>) {
        proof {
            proposal_order_is_total(self@, other@, self@);
        }
        if self.priority != other.priority {
            if self.priority < other.priority {
                Some(Ordering::Less)
            } else {
                Some(Ordering::Greater)
            }
        } else if self.proposer.0 != other.proposer.0 {
            if self.proposer.0 < other.proposer.0 {
                Some(Ordering::Less)
            } else {
                Some(Ordering::Greater)
            }
        } else {
            match compare_bytes(&self.value, &other.value) {
                Order::Less => Some(Ordering::Less),
                Order::Equal => Some(Ordering::Equal),
                Order::Greater => Some(Ordering::Greater),
            }
        }
    }
}

impl vstd::std_specs::cmp::PartialOrdSpecImpl for Proposal {
    open spec fn obeys_partial_cmp_spec() -> bool {
        true
    }

    open spec fn partial_cmp_spec(&self, other: &Proposal) -> Option<Ordering> {
        if self@ == other@ {
            Some(Ordering::Equal)
        } else if self@.lt(other@) {
            Some(Ordering::Less)
        } else {
            Some(Ordering::Greater)
        }
    }
}

impl Proposal {
    /// Whether this proposal ranks below `other`.
    pub fn below(&self, other: &Proposal) -> (r: bool)
        ensures
            r == self@.lt(other@),
    {
        proof {
            proposal_order_is_total(self@, other@, self@);
        }
        *self < *other
    }
}

/// A command as it rides in a batch: its id and its data.
pub type Command = (CommandId, Seq<u8>);

/// A set of commands riding together, as batched into one consensus value
/// or one `Forward` message.
pub type CommandBatch = Vec<(CommandId, Bytes)>;

/// The commands that a batch holds.
pub open spec fn commands_of(batch: Seq<(CommandId, Bytes)>) -> Seq<Command> {
    batch.map_values(|c: (CommandId, Bytes)| (c.0, c.1@))
}

/// The encoding of a command id.
pub open spec fn id_bytes(id: CommandId) -> Seq<u8> {
    u64_bytes(id.origin.0) + u64_bytes(id.boot) + u64_bytes(id.seq)
}

/// The encoding of one command.
pub open spec fn command_bytes(c: Command) -> Seq<u8> {
    id_bytes(c.0) + field_bytes(c.1)
}

/// The encodings of `cs`, one after the other.
pub open spec fn commands_bytes(cs: Seq<Command>) -> Seq<u8>
    decreases cs.len(),
{
    if cs.len() == 0 {
        Seq::empty()
    } else {
        command_bytes(cs[0]) + commands_bytes(cs.drop_first())
    }
}

/// The consensus value that stands for the batch `cs`: a tag, the number of
/// commands, and the commands.
pub open spec fn batch_bytes(cs: Seq<Command>) -> Seq<u8> {
    seq![VALUE_TAG_BATCH] + u32_bytes(cs.len() as u32) + commands_bytes(cs)
}

/// Whether the 32-bit length fields can hold every length in `cs`.
pub open spec fn commands_fit(cs: Seq<Command>) -> bool {
    &&& cs.len() <= u32::MAX
    &&& forall|i: int| 0 <= i < cs.len() ==> (#[trigger] cs[i]).1.len() <= u32::MAX
}

/// Reads a command id off the front of `b`.
pub open spec fn take_id(b: Seq<u8>) -> Option<(CommandId, Seq<u8>)> {
    match take_u64(b) {
        None => None,
        Some((origin, b1)) => match take_u64(b1) {
            None => None,
            Some((boot, b2)) => match take_u64(b2) {
                None => None,
                Some((seq, b3)) => Some(
                    (CommandId { origin: ReplicaId(origin), boot, seq }, b3),
                ),
            },
        },
    }
}

/// Reads one command off the front of `b`.
pub open spec fn take_command(b: Seq<u8>) -> Option<(Command, Seq<u8>)> {
    match take_id(b) {
        None => None,
        Some((id, b1)) => match take_field(b1) {
            None => None,
            Some((data, b2)) => Some(((id, data), b2)),
        },
    }
}

/// Reads `n` commands off the front of `b`.
pub open spec fn take_commands(b: Seq<u8>, n: nat) -> Option<(Seq<Command>, Seq<u8>)>
    decreases n,
{
    if n == 0 {
        Some((Seq::empty(), b))
    } else {
        match take_command(b) {
            None => None,
            Some((c, b1)) => match take_commands(b1, (n - 1) as nat) {
                None => None,
                Some((cs, b2)) => Some((seq![c] + cs, b2)),
            },
        }
    }
}

/// The batch that a consensus value stands for, if it stands for one.
pub open spec fn parse_batch(value: Seq<u8>) -> Option<Seq<Command>> {
    match take_u8(value) {
        None => None,
        Some((tag, b1)) => if tag != VALUE_TAG_BATCH {
            None
        } else {
            match take_u32(b1) {
                None => None,
                Some((count, b2)) => match take_commands(b2, count as nat) {
                    None => None,
                    Some((cs, b3)) => if b3.len() == 0 {
                        Some(cs)
                    } else {
                        None
                    },
                },
            }
        },
    }
}

pub proof fn lemma_take_command(c: Command, rest: Seq<u8>)
    requires
        c.1.len() <= u32::MAX,
    ensures
        take_command(command_bytes(c) + rest) == Some((c, rest)),
{
    let b3 = field_bytes(c.1) + rest;
    let b2 = u64_bytes(c.0.seq) + b3;
    let b1 = u64_bytes(c.0.boot) + b2;
    lemma_take_u64(c.0.origin.0, b1);
    lemma_take_u64(c.0.boot, b2);
    lemma_take_u64(c.0.seq, b3);
    lemma_take_field(c.1, rest);
    assert(command_bytes(c) + rest =~= u64_bytes(c.0.origin.0) + b1);
}

pub proof fn lemma_take_command_sound(b: Seq<u8>)
    ensures
        take_command(b) matches Some((c, rest)) ==> c.1.len() <= u32::MAX && b == command_bytes(c)
            + rest,
{
    lemma_take_u64_sound(b);
    if let Some((origin, b1)) = take_u64(b) {
        lemma_take_u64_sound(b1);
        if let Some((boot, b2)) = take_u64(b1) {
            lemma_take_u64_sound(b2);
            if let Some((seq, b3)) = take_u64(b2) {
                lemma_take_field_sound(b3);
                if let Some((data, rest)) = take_field(b3) {
                    let c = (CommandId { origin: ReplicaId(origin), boot, seq }, data);
                    assert(b =~= command_bytes(c) + rest);
                }
            }
        }
    }
}

pub proof fn lemma_take_commands(cs: Seq<Command>, rest: Seq<u8>)
    requires
        forall|i: int| 0 <= i < cs.len() ==> (#[trigger] cs[i]).1.len() <= u32::MAX,
    ensures
        take_commands(commands_bytes(cs) + rest, cs.len()) == Some((cs, rest)),
    decreases cs.len(),
{
    if cs.len() == 0 {
        assert(commands_bytes(cs) + rest =~= rest);
        assert(cs =~= Seq::empty());
    } else {
        let tail = cs.drop_first();
        assert(commands_bytes(cs) + rest =~= command_bytes(cs[0]) + (commands_bytes(tail) + rest));
        lemma_take_command(cs[0], commands_bytes(tail) + rest);
        assert forall|i: int| 0 <= i < tail.len() implies (#[trigger] tail[i]).1.len()
            <= u32::MAX by {
            assert(tail[i] == cs[i + 1]);
        }
        lemma_take_commands(tail, rest);
        assert(seq![cs[0]] + tail =~= cs);
    }
}

pub proof fn lemma_take_commands_sound(b: Seq<u8>, n: nat)
    ensures
        take_commands(b, n) matches Some((cs, rest)) ==> {
            &&& cs.len() == n
            &&& forall|i: int| 0 <= i < cs.len() ==> (#[trigger] cs[i]).1.len() <= u32::MAX
            &&& b == commands_bytes(cs) + rest
        },
    decreases n,
{
    if n == 0 {
        assert(b =~= commands_bytes(Seq::<Command>::empty()) + b);
    } else {
        lemma_take_command_sound(b);
        if let Some((c, b1)) = take_command(b) {
            lemma_take_commands_sound(b1, (n - 1) as nat);
            if let Some((cs, rest)) = take_commands(b1, (n - 1) as nat) {
                let all = seq![c] + cs;
                assert(all.drop_first() =~= cs);
                assert(b =~= commands_bytes(all) + rest);
            }
        }
    }
}

pub proof fn lemma_commands_bytes_push(cs: Seq<Command>, c: Command)
    ensures
        commands_bytes(cs.push(c)) == commands_bytes(cs) + command_bytes(c),
    decreases cs.len(),
{
    let all = cs.push(c);
    if cs.len() == 0 {
        assert(commands_bytes(all.drop_first()) =~= Seq::empty());
        assert(commands_bytes(all) =~= commands_bytes(cs) + command_bytes(c));
    } else {
        assert(all.drop_first() =~= cs.drop_first().push(c));
        lemma_commands_bytes_push(cs.drop_first(), c);
        assert(commands_bytes(all) =~= commands_bytes(cs) + command_bytes(c));
    }
}

/// A consensus value decodes to a batch exactly when it is that batch's
/// encoding and the length fields can hold the batch's lengths.
pub proof fn batch_decoding_inverts_encoding(value: Seq<u8>, cs: Seq<Command>)
    ensures
        parse_batch(value) == Some(cs) <==> commands_fit(cs) && value == batch_bytes(cs),
{
    if commands_fit(cs) && value == batch_bytes(cs) {
        let n = cs.len() as u32;
        let b1 = u32_bytes(n) + commands_bytes(cs);
        assert(value =~= seq![VALUE_TAG_BATCH] + b1);
        lemma_take_u8(VALUE_TAG_BATCH, b1);
        lemma_take_u32(n, commands_bytes(cs));
        lemma_take_commands(cs, Seq::empty());
        assert(commands_bytes(cs) + Seq::<u8>::empty() =~= commands_bytes(cs));
    }
    if parse_batch(value) == Some(cs) {
        lemma_take_u8_sound(value);
        let (tag, b1) = take_u8(value)->0;
        lemma_take_u32_sound(b1);
        let (count, b2) = take_u32(b1)->0;
        lemma_take_commands_sound(b2, count as nat);
        let (_, b3) = take_commands(b2, count as nat)->0;
        assert(b3 =~= Seq::empty());
        assert(value =~= batch_bytes(cs));
    }
}

/// No two batches share an encoding that either of them decodes from: cutting
/// bytes off a valid batch, or adding some, never yields a valid batch.
pub proof fn batch_encoding_is_prefix_free(value: Seq<u8>, extra: Seq<u8>)
    requires
        parse_batch(value) is Some,
        extra.len() > 0,
    ensures
        parse_batch(value + extra) is None,
{
    let cs = parse_batch(value)->0;
    batch_decoding_inverts_encoding(value, cs);
    let b1 = u32_bytes(cs.len() as u32) + (commands_bytes(cs) + extra);
    assert(value + extra =~= seq![VALUE_TAG_BATCH] + b1);
    lemma_take_u8(VALUE_TAG_BATCH, b1);
    lemma_take_u32(cs.len() as u32, commands_bytes(cs) + extra);
    lemma_take_commands(cs, extra);
}

/// Appends the encoding of a command id.
pub(crate) fn encode_command_id(out: &mut Vec<u8>, id: &CommandId)
    ensures
        final(out)@ == old(out)@ + id_bytes(*id),
{
    put_u64(out, id.origin.0);
    put_u64(out, id.boot);
    put_u64(out, id.seq);
    assert(out@ =~= old(out)@ + id_bytes(*id));
}

/// Reads a command id.
pub(crate) fn decode_command_id(c: &mut Cursor<'_>) -> (r: Option<CommandId>)
    requires
        old(c).wf(),
    ensures
        final(c).wf(),
        match take_id(old(c).rest()) {
            Some((id, rest)) => r == Some(id) && final(c).rest() == rest,
            None => r is None,
        },
{
    let origin = c.u64()?;
    let boot = c.u64()?;
    let seq = c.u64()?;
    Some(CommandId { origin: ReplicaId(origin), boot, seq })
}

/// A fresh handle on a copy of `data`.
pub fn bytes_from(data: &[u8]) -> (r: Bytes)
    ensures
        r@ == data@,
{
    Arc::new(vstd::slice::slice_to_vec(data))
}

/// Appends the encodings of `commands`, one after the other.
pub(crate) fn encode_commands(out: &mut Vec<u8>, commands: &[(CommandId, Bytes)])
    ensures
        final(out)@ == old(out)@ + commands_bytes(commands_of(commands@)),
{
    let ghost cs = commands_of(commands@);
    let ghost start = out@;
    let mut i: usize = 0;
    assert(out@ =~= start + commands_bytes(cs.take(0)));
    while i < commands.len()
        invariant
            i <= commands.len(),
            cs == commands_of(commands@),
            out@ == start + commands_bytes(cs.take(i as int)),
        decreases commands.len() - i,
    {
        encode_command_id(out, &commands[i].0);
        encode_bytes(out, &commands[i].1);
        proof {
            lemma_commands_bytes_push(cs.take(i as int), cs[i as int]);
            assert(cs.take(i as int).push(cs[i as int]) =~= cs.take(i + 1));
            assert(out@ =~= start + commands_bytes(cs.take(i + 1)));
        }
        i += 1;
    }
    assert(cs.take(i as int) =~= cs);
}

/// Reads `count` commands.
pub(crate) fn decode_commands(c: &mut Cursor<'_>, count: u32) -> (r: Option<CommandBatch>)
    requires
        old(c).wf(),
    ensures
        final(c).wf(),
        match take_commands(old(c).rest(), count as nat) {
            Some((cs, rest)) => r matches Some(batch) && commands_of(batch@) == cs
                && final(c).rest() == rest,
            None => r is None,
        },
{
    let mut commands: CommandBatch = Vec::new();
    let mut k: u32 = 0;
    assert(commands_of(commands@) =~= Seq::empty());
    proof {
        if let Some((cs, rest)) = take_commands(c.rest(), count as nat) {
            assert(commands_of(commands@) + cs =~= cs);
        }
    }
    while k < count
        invariant
            k <= count,
            c.wf(),
            take_commands(old(c).rest(), count as nat) == (match take_commands(
                c.rest(),
                (count - k) as nat,
            ) {
                Some((cs, rest)) => Some((commands_of(commands@) + cs, rest)),
                None => None,
            }),
        decreases count - k,
    {
        let id = decode_command_id(c)?;
        let data = bytes_from(c.field()?);
        let ghost prev = commands_of(commands@);
        commands.push((id, data));
        proof {
            assert(commands_of(commands@) =~= prev.push((id, data@)));
            if let Some((cs, rest)) = take_commands(c.rest(), (count - k - 1) as nat) {
                assert(prev + (seq![(id, data@)] + cs) =~= commands_of(commands@) + cs);
            }
        }
        k += 1;
    }
    assert(commands_of(commands@) + Seq::<Command>::empty() =~= commands_of(commands@));
    Some(commands)
}

/// Encodes a batch of commands as a consensus value.
pub fn encode_batch(commands: &[(CommandId, Bytes)]) -> (r: Bytes)
    ensures
        r@ == batch_bytes(commands_of(commands@)),
{
    let mut out: Vec<u8> = Vec::new();
    out.push(VALUE_TAG_BATCH);
    put_u32(&mut out, commands.len() as u32);
    encode_commands(&mut out, commands);
    assert(out@ =~= batch_bytes(commands_of(commands@)));
    Arc::new(out)
}

/// Decodes a consensus value into its batch of commands.
///
/// Values are only ever produced by `encode_batch` on some replica, so a
/// decode failure indicates an out-of-model fault; callers treat it as an
/// empty batch.
pub fn decode_batch(value: &[u8]) -> (r: Option<CommandBatch>)
    ensures
        match parse_batch(value@) {
            Some(cs) => r matches Some(batch) && commands_of(batch@) == cs,
            None => r is None,
        },
{
    let mut cursor = Cursor::new(value);
    if cursor.u8()? != VALUE_TAG_BATCH {
        return None;
    }
    let count = cursor.u32()?;
    let commands = decode_commands(&mut cursor, count)?;
    if !cursor.finished() {
        return None;
    }
    Some(commands)
}

/// Byte strings are ordered as words in a dictionary: the first byte in which
/// they differ decides, and a prefix comes before what it begins.
pub proof fn bytes_are_ordered_like_words(p: Seq<u8>, x: u8, u: Seq<u8>, y: u8, v: Seq<u8>)
    ensures
        bytes_lt(p, p + seq![x] + u),
        !bytes_lt(p + seq![x] + u, p),
        x < y ==> bytes_lt(p + seq![x] + u, p + seq![y] + v),
        x < y ==> !bytes_lt(p + seq![y] + v, p + seq![x] + u),
    decreases p.len(),
{
    let a = p + seq![x] + u;
    let b = p + seq![y] + v;
    if p.len() > 0 {
        let q = p.drop_first();
        bytes_are_ordered_like_words(q, x, u, y, v);
        assert(a.drop_first() =~= q + seq![x] + u);
        assert(b.drop_first() =~= q + seq![y] + v);
        assert(a[0] == p[0] && b[0] == p[0]);
    } else {
        assert(a[0] == x && b[0] == y);
    }
}

/// Proposals rank by priority first, then by proposer, then by value.
pub proof fn proposals_rank_by_priority_first(a: ProposalView, b: ProposalView)
    ensures
        a.priority < b.priority ==> a.lt(b) && !b.lt(a),
        a.priority == b.priority && a.proposer.0 < b.proposer.0 ==> a.lt(b) && !b.lt(a),
        a.priority == b.priority && a.proposer == b.proposer ==> a.lt(b) == bytes_lt(
            a.value,
            b.value,
        ),
{
}

} // verus!

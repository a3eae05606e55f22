//! Configuration of one replica of a consensus group.

use std::time::Duration;

use vstd::prelude::*;

use crate::sorted::{ascending, ascends, Key, SortedMap};
use crate::types::{ReplicaId, MAX_BATCH_BYTES_LIMIT};

verus! {

/// The ceiling of configurable delays, about 416 days: high enough to mean
/// "never", low enough that deadline arithmetic stays exact.
pub const MAX_DELAY: u64 = 0x80_0000_0000_0000;

/// The floor of the retransmission delay, 1ms.
pub const MIN_RETRANSMIT_DELAY: u64 = 1_000_000;

/// Configuration for one [`Replica`](crate::Replica) of a consensus group.
///
/// Constructed with [`Config::new`] and refined with the builder-style
/// setters. Every replica of a group must be configured with the same replica
/// set; the hedging schedule is the ascending id order, so it is identical on
/// all replicas regardless of the order ids were passed in.
#[non_exhaustive]
#[derive(Debug)]
pub struct Config {
    pub replicas: Vec<ReplicaId>,
    pub me: ReplicaId,
    pub rng_seed: u64,
    pub hedge_delay: u64,
    pub retransmit_delay: u64,
    pub pipeline: u32,
    pub max_batch_bytes: usize,
    pub max_pool_bytes: usize,
    pub max_retained_bytes: usize,
}

/// What a [`Config`] holds.
#[verifier::ext_equal]
pub struct ConfigView {
    pub replicas: Seq<ReplicaId>,
    pub me: ReplicaId,
    pub rng_seed: u64,
    pub hedge_delay: u64,
    pub retransmit_delay: u64,
    pub pipeline: u32,
    pub max_batch_bytes: usize,
    pub max_pool_bytes: usize,
    pub max_retained_bytes: usize,
}

/// Error returned by [`Config::new`] for an invalid replica set.
#[derive(Debug, Clone, Copy, PartialEq, Eq, Structural)]
pub enum ConfigError {
    /// The replica set is empty.
    NoReplicas,
    /// A replica id is zero, which is reserved.
    ZeroReplicaId,
    /// The same id appears more than once in the replica set.
    DuplicateReplicaId,
    /// `me` is not a member of the replica set.
    UnknownLocalReplica,
}

impl ConfigError {
    /// A human-readable description.
    pub fn message(&self) -> (r: &'static str)
        ensures
            r@ == (match self {
                ConfigError::NoReplicas => "replica set is empty"@,
                ConfigError::ZeroReplicaId => "replica id 0 is reserved"@,
                ConfigError::DuplicateReplicaId => "duplicate replica id"@,
                ConfigError::UnknownLocalReplica => "local replica is not in the replica set"@,
            }),
    {
        match self {
            ConfigError::NoReplicas => "replica set is empty",
            ConfigError::ZeroReplicaId => "replica id 0 is reserved",
            ConfigError::DuplicateReplicaId => "duplicate replica id",
            ConfigError::UnknownLocalReplica => "local replica is not in the replica set",
        }
    }
}

impl Key for ReplicaId {
    open spec fn rank(self) -> int {
        self.0 as int
    }

    proof fn rank_is_injective(a: ReplicaId, b: ReplicaId) {
    }

    fn precedes(&self, other: &ReplicaId) -> (r: bool) {
        self.0 < other.0
    }
}

/// The number of nanoseconds that a `Duration` spans.
pub uninterp spec fn duration_nanos(d: Duration) -> u128;

/// `Duration::as_nanos`, which std documents to return the total number of
/// nanoseconds contained by the duration. The contract names that number.
pub assume_specification[ Duration::as_nanos ](d: &Duration) -> (r: u128)
    ensures
        r == duration_nanos(*d),
;

impl Clone for Config {
    fn clone(&self) -> (r: Config)
        ensures
            r@ == self@,
    {
        let r = Config {
            replicas: self.replicas.clone(),
            me: self.me,
            rng_seed: self.rng_seed,
            hedge_delay: self.hedge_delay,
            retransmit_delay: self.retransmit_delay,
            pipeline: self.pipeline,
            max_batch_bytes: self.max_batch_bytes,
            max_pool_bytes: self.max_pool_bytes,
            max_retained_bytes: self.max_retained_bytes,
        };
        assert(r.replicas@ =~= self.replicas@);
        r
    }
}

impl View for Config {
    type V = ConfigView;

    open spec fn view(&self) -> ConfigView {
        ConfigView {
            replicas: self.replicas@,
            me: self.me,
            rng_seed: self.rng_seed,
            hedge_delay: self.hedge_delay,
            retransmit_delay: self.retransmit_delay,
            pipeline: self.pipeline,
            max_batch_bytes: self.max_batch_bytes,
            max_pool_bytes: self.max_pool_bytes,
            max_retained_bytes: self.max_retained_bytes,
        }
    }
}

/// What is wrong with the replica set `replicas` and the local replica `me`,
/// if anything is.
pub open spec fn config_error(replicas: Seq<ReplicaId>, me: ReplicaId) -> Option<ConfigError> {
    if replicas.len() == 0 {
        Some(ConfigError::NoReplicas)
    } else if replicas.contains(ReplicaId(0)) {
        Some(ConfigError::ZeroReplicaId)
    } else if !replicas.no_duplicates() {
        Some(ConfigError::DuplicateReplicaId)
    } else if !replicas.contains(me) {
        Some(ConfigError::UnknownLocalReplica)
    } else {
        None
    }
}

impl ConfigView {
    /// The configuration of a fresh group: the ids in ascending order, and
    /// the defaults of everything else.
    pub open spec fn defaults(replicas: Seq<ReplicaId>, me: ReplicaId, rng_seed: u64) -> ConfigView {
        ConfigView {
            replicas: ascending(replicas.to_set()),
            me,
            rng_seed,
            hedge_delay: 200_000_000,
            retransmit_delay: 500_000_000,
            pipeline: 4,
            max_batch_bytes: 0x10_0000,
            max_pool_bytes: 0x100_0000,
            max_retained_bytes: 0x200_0000,
        }
    }

    /// What `Config::new` and the setters guarantee.
    pub open spec fn wf(self) -> bool {
        &&& ascends(self.replicas)
        &&& self.replicas.contains(self.me)
        &&& forall|i: int| 0 <= i < self.replicas.len() ==> (#[trigger] self.replicas[i]).0 != 0
        &&& self.hedge_delay <= MAX_DELAY
        &&& MIN_RETRANSMIT_DELAY <= self.retransmit_delay <= MAX_DELAY
        &&& self.pipeline >= 1
        &&& 1 <= self.max_batch_bytes <= MAX_BATCH_BYTES_LIMIT
        &&& self.max_pool_bytes >= 1
        &&& self.max_retained_bytes >= 1
    }
}

/// The hedging delay for a span of `nanos` nanoseconds: clamped to the
/// ceiling.
pub fn clamped_hedge_delay(nanos: u128) -> (r: u64)
    ensures
        r == (if nanos <= MAX_DELAY {
            nanos as u64
        } else {
            MAX_DELAY
        }),
{
    if nanos <= MAX_DELAY as u128 {
        nanos as u64
    } else {
        MAX_DELAY
    }
}

/// The retransmission delay for a span of `nanos` nanoseconds: clamped to the
/// floor and the ceiling.
pub fn clamped_retransmit_delay(nanos: u128) -> (r: u64)
    ensures
        r == (if nanos < MIN_RETRANSMIT_DELAY {
            MIN_RETRANSMIT_DELAY
        } else if nanos <= MAX_DELAY {
            nanos as u64
        } else {
            MAX_DELAY
        }),
{
    if nanos < MIN_RETRANSMIT_DELAY as u128 {
        MIN_RETRANSMIT_DELAY
    } else if nanos <= MAX_DELAY as u128 {
        nanos as u64
    } else {
        MAX_DELAY
    }
}

impl Config {
    pub open spec fn wf(&self) -> bool {
        self@.wf()
    }

    /// Creates a configuration for a group made of `replicas` (any order;
    /// deduplication is an error), identifying the local replica as `me`.
    ///
    /// `rng_seed` seeds proposal-priority randomization and doubles as the
    /// process-restart nonce in [`CommandId`](crate::CommandId)s, so it must
    /// differ across restarts of the same replica: pass fresh entropy in
    /// production. Given the same seed and the same sequence of inputs, a
    /// `Replica` behaves identically, which is what makes simulation testing
    /// of this crate deterministic.
    pub fn new(replicas: Vec<ReplicaId>, me: ReplicaId, rng_seed: u64) -> (r: Result<
        Config,
        ConfigError,
    >)
        ensures
            match config_error(replicas@, me) {
                Some(e) => r == Err::<Config, ConfigError>(e),
                None => r matches Ok(config) && config.wf() && config@ == ConfigView::defaults(
                    replicas@,
                    me,
                    rng_seed,
                ),
            },
    {
        if replicas.len() == 0 {
            return Err(ConfigError::NoReplicas);
        }
        let zero = ReplicaId(0);
        if position(&replicas, &zero).is_some() {
            return Err(ConfigError::ZeroReplicaId);
        }
        let mut ids: SortedMap<ReplicaId, ()> = SortedMap::new();
        let mut i: usize = 0;
        assert(ids@.dom() =~= replicas@.take(0).to_set());
        while i < replicas.len()
            invariant
                i <= replicas@.len(),
                replicas@.len() > 0,
                !replicas@.contains(ReplicaId(0)),
                ids.wf(),
                ids@.dom() == replicas@.take(i as int).to_set(),
                replicas@.take(i as int).no_duplicates(),
            decreases replicas.len() - i,
        {
            let id = replicas[i];
            let ghost seen = replicas@.take(i as int);
            let ghost before = ids@.dom();
            let clash = ids.insert(id, ()).is_some();
            proof {
                assert(replicas@.take(i + 1) =~= seen.push(id));
                if clash {
                    assert(before.contains(id));
                    assert(seen.contains(id));
                    let j = choose|j: int| 0 <= j < seen.len() && seen[j] == id;
                    assert(replicas@[j] == replicas@[i as int]);
                } else {
                    assert(!seen.contains(id));
                    assert(seen.push(id).no_duplicates());
                    assert forall|k: ReplicaId| ids@.dom().contains(k) <==> seen.push(
                        id,
                    ).to_set().contains(k) by {
                        if seen.contains(k) {
                            let j = choose|j: int| 0 <= j < seen.len() && seen[j] == k;
                            assert(seen.push(id)[j] == k);
                        }
                        if seen.push(id).contains(k) && k != id {
                            let j = choose|j: int| 0 <= j < seen.push(id).len() && seen.push(id)[j]
                                == k;
                            assert(seen[j] == k);
                        }
                        assert(seen.push(id)[i as int] == id);
                        assert(before.contains(k) <==> seen.to_set().contains(k));
                    }
                    assert(ids@.dom() =~= seen.push(id).to_set());
                }
            }
            if clash {
                return Err(ConfigError::DuplicateReplicaId);
            }
            i += 1;
        }
        assert(replicas@.take(i as int) =~= replicas@);
        if !ids.contains_key(&me) {
            assert(!replicas@.to_set().contains(me));
            return Err(ConfigError::UnknownLocalReplica);
        }
        assert(replicas@.to_set().contains(me));
        let mut schedule: Vec<ReplicaId> = Vec::new();
        let mut k: usize = 0;
        while k < ids.len()
            invariant
                k <= ids.keys().len(),
                ids.wf(),
                schedule@ == ids.keys().take(k as int),
            decreases ids.keys().len() - k,
        {
            schedule.push(ids.key_at(k));
            assert(schedule@ =~= ids.keys().take(k + 1));
            k += 1;
        }
        proof {
            ids.lemma_entries();
            assert(schedule@ =~= ids.keys());
            assert forall|j: int| 0 <= j < schedule@.len() implies (#[trigger] schedule@[j]).0
                != 0 by {
                assert(ids.keys().to_set().contains(ids.keys()[j]));
                assert(replicas@.contains(schedule@[j]));
            }
            assert(ids.keys().to_set().contains(me));
        }
        Ok(
            Config {
                replicas: schedule,
                me,
                rng_seed,
                hedge_delay: 200_000_000,
                retransmit_delay: 500_000_000,
                pipeline: 4,
                max_batch_bytes: 0x10_0000,
                max_pool_bytes: 0x100_0000,
                max_retained_bytes: 0x200_0000,
            },
        )
    }

    /// Base hedging delay (default 200ms): the k-th replica in the schedule
    /// starts proposing for a slot only after the slot has made no observed
    /// progress for `k * hedge_delay`. Zero is legal; too-small values cost
    /// only redundant messages, never safety or liveness. Clamped to about
    /// 416 days so per-replica deadline arithmetic cannot overflow even for
    /// `Duration::MAX` (which effectively disables hedging).
    pub fn hedge_delay(self, delay: Duration) -> (r: Config)
        ensures
            r@ == (ConfigView {
                hedge_delay: (if duration_nanos(delay) <= MAX_DELAY {
                    duration_nanos(delay) as u64
                } else {
                    MAX_DELAY
                }),
                ..self@
            }),
            self.wf() ==> r.wf(),
    {
        let mut config = self;
        config.hedge_delay = clamped_hedge_delay(delay.as_nanos());
        config
    }

    /// How long a proposer waits for recorder replies before re-sending
    /// (default 500ms). The transport may drop messages; retransmissions are
    /// byte-identical and idempotent.
    /// Clamped to at least 1ms: a zero delay would make an exact-deadline
    /// scheduler (driving ticks by `next_wakeup`) spin retransmitting at a
    /// single instant. Clamped to the same ~416 day ceiling as
    /// [`hedge_delay`](Config::hedge_delay), so `Duration::MAX` means
    /// "effectively never" instead of overflowing deadline arithmetic.
    pub fn retransmit_delay(self, delay: Duration) -> (r: Config)
        ensures
            r@ == (ConfigView {
                retransmit_delay: (if duration_nanos(delay) < MIN_RETRANSMIT_DELAY {
                    MIN_RETRANSMIT_DELAY
                } else if duration_nanos(delay) <= MAX_DELAY {
                    duration_nanos(delay) as u64
                } else {
                    MAX_DELAY
                }),
                ..self@
            }),
            self.wf() ==> r.wf(),
    {
        let mut config = self;
        config.retransmit_delay = clamped_retransmit_delay(delay.as_nanos());
        config
    }

    /// Maximum consensus slots the leader keeps in flight concurrently
    /// (default 4, minimum 1). Only the leader pipelines.
    pub fn pipeline(self, depth: u32) -> (r: Config)
        ensures
            r@ == (ConfigView {
                pipeline: (if depth < 1 {
                    1u32
                } else {
                    depth
                }),
                ..self@
            }),
            self.wf() ==> r.wf(),
    {
        let mut config = self;
        config.pipeline = if depth < 1 {
            1
        } else {
            depth
        };
        config
    }

    /// Maximum encoded bytes of commands batched into one slot (default
    /// 1 MiB, clamped to 1 GiB). A single command larger than this still
    /// forms an (oversized) batch of one. The clamp, together with the 1 GiB
    /// per-command limit enforced by [`submit`](crate::Replica::submit),
    /// keeps every encoded batch within the wire format's u32 length fields.
    pub fn max_batch_bytes(self, bytes: usize) -> (r: Config)
        ensures
            r@ == (ConfigView {
                max_batch_bytes: (if bytes < 1 {
                    1usize
                } else if bytes > MAX_BATCH_BYTES_LIMIT {
                    MAX_BATCH_BYTES_LIMIT
                } else {
                    bytes
                }),
                ..self@
            }),
            self.wf() ==> r.wf(),
    {
        let mut config = self;
        config.max_batch_bytes = if bytes < 1 {
            1
        } else if bytes > MAX_BATCH_BYTES_LIMIT {
            MAX_BATCH_BYTES_LIMIT
        } else {
            bytes
        };
        config
    }

    /// Maximum bytes of submitted-but-undelivered commands held in the local
    /// pool (default 16 MiB). [`submit`](crate::Replica::submit) fails with
    /// `PoolFull` beyond it.
    pub fn max_pool_bytes(self, bytes: usize) -> (r: Config)
        ensures
            r@ == (ConfigView {
                max_pool_bytes: (if bytes < 1 {
                    1usize
                } else {
                    bytes
                }),
                ..self@
            }),
            self.wf() ==> r.wf(),
    {
        let mut config = self;
        config.max_pool_bytes = if bytes < 1 {
            1
        } else {
            bytes
        };
        config
    }

    /// Memory budget for retaining decided values so lagging replicas can
    /// catch up (default 32 MiB). Values are normally freed once every
    /// replica has acknowledged them; past this budget the oldest are freed
    /// anyway, and a replica that lagged behind the freed prefix can never
    /// rejoin this group (matching the crash-stop model). The same budget
    /// bounds buffering of decided-ahead values while the frontier is stuck:
    /// beyond it, remote decisions are dropped and re-fetched later. Pass
    /// `usize::MAX` to never free unacknowledged values (unbounded memory if
    /// a replica is gone forever, but stragglers always remain recoverable).
    pub fn max_retained_bytes(self, bytes: usize) -> (r: Config)
        ensures
            r@ == (ConfigView {
                max_retained_bytes: (if bytes < 1 {
                    1usize
                } else {
                    bytes
                }),
                ..self@
            }),
            self.wf() ==> r.wf(),
    {
        let mut config = self;
        config.max_retained_bytes = if bytes < 1 {
            1
        } else {
            bytes
        };
        config
    }
}

/// The first position of `id` in `ids`.
pub(crate) fn position(ids: &Vec<ReplicaId>, id: &ReplicaId) -> (r: Option<usize>)
    ensures
        match r {
            Some(i) => i < ids@.len() && ids@[i as int] == *id,
            None => !ids@.contains(*id),
        },
{
    let mut i: usize = 0;
    while i < ids.len()
        invariant
            i <= ids@.len(),
            forall|j: int| 0 <= j < i ==> ids@[j] != *id,
        decreases ids.len() - i,
    {
        if ids[i] == *id {
            return Some(i);
        }
        i += 1;
    }
    None
}

/// The schedule is the ascending order of the ids: it is the same on all
/// replicas of a group, whatever order each was given the ids in.
pub proof fn schedule_ignores_the_order(
    q: Seq<ReplicaId>,
    r: Seq<ReplicaId>,
    me: ReplicaId,
    you: ReplicaId,
    rng_seed: u64,
    other_seed: u64,
)
    requires
        q.to_set() == r.to_set(),
    ensures
        ConfigView::defaults(q, me, rng_seed).replicas == ConfigView::defaults(
            r,
            you,
            other_seed,
        ).replicas,
{
}

} // verus!

use raxos::pool::{Dedup, Pool};
use raxos::types::bytes_from;
use raxos::{CommandId, ReplicaId};

fn id(origin: u64, seq: u64) -> CommandId {
    CommandId {
        origin: ReplicaId(origin),
        boot: 7,
        seq,
    }
}

#[test]
fn dedup_marks_and_drains_contiguously() {
    let mut dedup = Dedup::default();
    assert!(!dedup.is_delivered(&id(1, 1)));
    assert!(dedup.mark_delivered(&id(1, 1)));
    assert!(!dedup.mark_delivered(&id(1, 1)), "duplicate rejected");
    assert!(dedup.is_delivered(&id(1, 1)));

    // Out-of-order delivery parks seq 3 in the sparse set...
    assert!(dedup.mark_delivered(&id(1, 3)));
    assert!(dedup.is_delivered(&id(1, 3)));
    assert!(!dedup.is_delivered(&id(1, 2)));
    // ...and seq 2 drains both into the high-water mark.
    assert!(dedup.mark_delivered(&id(1, 2)));
    assert!(dedup.is_delivered(&id(1, 2)));
    assert!(!dedup.mark_delivered(&id(1, 3)), "still deduplicated");
}

#[test]
fn dedup_is_per_origin_and_boot() {
    let mut dedup = Dedup::default();
    assert!(dedup.mark_delivered(&id(1, 1)));
    assert!(!dedup.is_delivered(&id(2, 1)));
    let restarted = CommandId {
        origin: ReplicaId(1),
        boot: 8,
        seq: 1,
    };
    assert!(!dedup.is_delivered(&restarted), "fresh boot, fresh seqs");
    assert!(dedup.mark_delivered(&restarted));
}

#[test]
fn pool_accounts_bytes() {
    let mut pool = Pool::default();
    pool.insert(id(1, 1), bytes_from(b"abcd"), 0);
    pool.insert(id(1, 1), bytes_from(b"abcd"), 0);
    pool.insert(id(1, 2), bytes_from(b"xy"), 0);
    // Costs include per-entry overhead so zero-length commands still
    // count against the limit.
    assert_eq!(pool.bytes, Pool::cost(4) + Pool::cost(2));
    assert!(Pool::cost(0) > 0);
    assert!(pool.has_unassigned());
    pool.remove(&id(1, 1));
    assert_eq!(pool.bytes, Pool::cost(2));
    pool.remove(&id(1, 1));
    assert_eq!(pool.bytes, Pool::cost(2));
}

#[test]
fn dedup_high_water_follows_the_contiguous_prefix() {
    let mut dedup = Dedup::default();
    assert_eq!(dedup.high_water(ReplicaId(1), 7), 0);
    for seq in [2, 3, 5] {
        assert!(dedup.mark_delivered(&id(1, seq)));
    }
    assert_eq!(dedup.high_water(ReplicaId(1), 7), 0);
    assert!(dedup.mark_delivered(&id(1, 1)));
    assert_eq!(dedup.high_water(ReplicaId(1), 7), 3);
    assert!(dedup.mark_delivered(&id(1, 4)));
    assert_eq!(dedup.high_water(ReplicaId(1), 7), 5);
    // Sequence number zero is never issued and never accepted.
    assert!(!dedup.mark_delivered(&id(1, 0)));
    assert!(!dedup.mark_delivered(&id(9, 0)));
    assert_eq!(dedup.high_water(ReplicaId(9), 7), 0);
}

#[test]
fn pool_cost_is_length_plus_framing() {
    assert_eq!(Pool::cost(0), 28);
    assert_eq!(Pool::cost(100), 128);
    let pool = Pool::default();
    assert_eq!(pool.bytes, 0);
    assert!(!pool.has_unassigned());
}

use std::time::Duration;

use raxos::{Config, ConfigError, ReplicaId};

fn r(id: u64) -> ReplicaId {
    ReplicaId(id)
}

#[test]
fn validates_replica_set() {
    assert_eq!(
        Config::new(vec![], r(1), 0).err(),
        Some(ConfigError::NoReplicas)
    );
    assert_eq!(
        Config::new(vec![r(0), r(1)], r(1), 0).err(),
        Some(ConfigError::ZeroReplicaId)
    );
    assert_eq!(
        Config::new(vec![r(1), r(2), r(1)], r(1), 0).err(),
        Some(ConfigError::DuplicateReplicaId)
    );
    assert_eq!(
        Config::new(vec![r(1), r(2)], r(3), 0).err(),
        Some(ConfigError::UnknownLocalReplica)
    );
    assert!(Config::new(vec![r(1)], r(1), 0).is_ok());
}

#[test]
fn schedule_is_sorted_id_order() {
    let config = Config::new(vec![r(5), r(2), r(9)], r(5), 0).unwrap();
    assert_eq!(config.replicas, vec![r(2), r(5), r(9)]);
}

#[test]
fn setters_clamp() {
    let config = Config::new(vec![ReplicaId(1)], ReplicaId(1), 0)
        .unwrap()
        .pipeline(0)
        .max_batch_bytes(0)
        .retransmit_delay(Duration::ZERO);
    assert_eq!(config.pipeline, 1);
    assert_eq!(config.max_batch_bytes, 1);
    // A zero retransmit delay would spin an exact-deadline scheduler.
    assert_eq!(config.retransmit_delay, 1_000_000);

    // Maximal delays clamp to the overflow-safe ceiling instead of
    // truncating to an arbitrary u64.
    let config = Config::new(vec![ReplicaId(1)], ReplicaId(1), 0)
        .unwrap()
        .hedge_delay(Duration::MAX)
        .retransmit_delay(Duration::MAX);
    assert_eq!(config.hedge_delay, 1 << 55);
    assert_eq!(config.retransmit_delay, 1 << 55);
}

#[test]
fn errors_are_reported_in_order() {
    // A zero id outranks a duplicate, which outranks an unknown member.
    assert_eq!(
        Config::new(vec![r(0), r(2), r(2)], r(7), 0).err(),
        Some(ConfigError::ZeroReplicaId)
    );
    assert_eq!(
        Config::new(vec![r(2), r(2)], r(7), 0).err(),
        Some(ConfigError::DuplicateReplicaId)
    );
    assert_eq!(ConfigError::NoReplicas.message(), "replica set is empty");
    assert_eq!(
        ConfigError::ZeroReplicaId.message(),
        "replica id 0 is reserved"
    );
    assert_eq!(
        ConfigError::DuplicateReplicaId.message(),
        "duplicate replica id"
    );
    assert_eq!(
        ConfigError::UnknownLocalReplica.message(),
        "local replica is not in the replica set"
    );
}

#[test]
fn defaults_and_setters() {
    let config = Config::new(vec![r(3), r(1)], r(3), 77).unwrap();
    assert_eq!(config.me, r(3));
    assert_eq!(config.rng_seed, 77);
    assert_eq!(config.hedge_delay, 200_000_000);
    assert_eq!(config.retransmit_delay, 500_000_000);
    assert_eq!(config.pipeline, 4);
    assert_eq!(config.max_batch_bytes, 1 << 20);
    assert_eq!(config.max_pool_bytes, 16 << 20);
    assert_eq!(config.max_retained_bytes, 32 << 20);

    let config = config
        .hedge_delay(Duration::from_millis(30))
        .retransmit_delay(Duration::from_millis(40))
        .pipeline(9)
        .max_batch_bytes(usize::MAX)
        .max_pool_bytes(0)
        .max_retained_bytes(0);
    assert_eq!(config.hedge_delay, 30_000_000);
    assert_eq!(config.retransmit_delay, 40_000_000);
    assert_eq!(config.pipeline, 9);
    assert_eq!(config.max_batch_bytes, 1 << 30);
    assert_eq!(config.max_pool_bytes, 1);
    assert_eq!(config.max_retained_bytes, 1);
}

#[test]
fn clones_are_equal() {
    let config = Config::new(vec![r(3), r(1)], r(3), 7)
        .unwrap()
        .pipeline(9)
        .max_pool_bytes(1234);
    let copy = config.clone();
    assert_eq!(copy.replicas, vec![r(1), r(3)]);
    assert_eq!(copy.me, r(3));
    assert_eq!(copy.rng_seed, 7);
    assert_eq!(copy.hedge_delay, config.hedge_delay);
    assert_eq!(copy.retransmit_delay, config.retransmit_delay);
    assert_eq!(copy.pipeline, 9);
    assert_eq!(copy.max_batch_bytes, config.max_batch_bytes);
    assert_eq!(copy.max_pool_bytes, 1234);
    assert_eq!(copy.max_retained_bytes, config.max_retained_bytes);
}

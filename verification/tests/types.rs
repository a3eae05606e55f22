use raxos::types::{bytes_from, decode_batch, encode_batch, Bytes, Proposal};
use raxos::{CommandId, ReplicaId, Slot};

#[test]
fn proposal_order_is_priority_then_proposer_then_value() {
    let p = |priority, proposer: u64, value: &[u8]| Proposal {
        priority,
        proposer: ReplicaId(proposer),
        value: bytes_from(value),
    };
    assert!(p(2, 1, b"z") > p(1, 9, b"a"));
    assert!(p(1, 2, b"a") > p(1, 1, b"z"));
    assert!(p(1, 1, b"b") > p(1, 1, b"a"));
    assert_eq!(p(1, 1, b"a"), p(1, 1, b"a"));
}

#[test]
fn batch_round_trip() {
    let id = |origin, boot, seq| CommandId {
        origin: ReplicaId(origin),
        boot,
        seq,
    };
    let commands: Vec<(CommandId, Bytes)> = vec![
        (id(1, 7, 1), bytes_from(b"hello")),
        (id(2, 9, 44), bytes_from(b"")),
        (id(3, 1, u64::MAX), bytes_from(&vec![0u8; 300])),
    ];
    let encoded = encode_batch(&commands);
    let decoded = decode_batch(&encoded).unwrap();
    assert_eq!(commands, decoded);

    assert_eq!(decode_batch(&encode_batch(&[])).unwrap(), vec![]);
}

#[test]
fn batch_decode_rejects_garbage() {
    assert!(decode_batch(&[]).is_none());
    assert!(decode_batch(&[1, 0, 0, 0, 0]).is_none()); // reserved tag
    assert!(decode_batch(&[0, 1, 0, 0, 0]).is_none()); // truncated command
    let valid = encode_batch(&[(
        CommandId {
            origin: ReplicaId(1),
            boot: 2,
            seq: 3,
        },
        bytes_from(b"x"),
    )]);
    // Truncations of a valid batch never decode.
    for len in 0..valid.len() {
        assert!(decode_batch(&valid[..len]).is_none());
    }
    // Trailing garbage is rejected.
    let mut extended = valid.to_vec();
    extended.push(0);
    assert!(decode_batch(&extended).is_none());
}

#[test]
fn batch_encoding_is_exact() {
    let encoded = encode_batch(&[(
        CommandId {
            origin: ReplicaId(1),
            boot: 2,
            seq: 3,
        },
        bytes_from(b"xy"),
    )]);
    let mut expected = vec![0u8, 1, 0, 0, 0];
    for field in [1u64, 2, 3] {
        expected.extend_from_slice(&field.to_le_bytes());
    }
    expected.extend_from_slice(&2u32.to_le_bytes());
    expected.extend_from_slice(b"xy");
    assert_eq!(encoded.to_vec(), expected);
}

#[test]
fn proposal_order_compares_values_lexicographically() {
    let p = |value: &[u8]| Proposal {
        priority: 1,
        proposer: ReplicaId(1),
        value: bytes_from(value),
    };
    assert!(p(b"") < p(b"a"));
    assert!(p(b"a") < p(b"aa"));
    assert!(p(b"ab") < p(b"b"));
    assert!(!(p(b"b") < p(b"ab")));
    assert!(p(b"same") <= p(b"same"));
}

#[test]
fn slots_count_up() {
    assert_eq!(Slot(0).next(), Slot(1));
    assert_eq!(Slot(41).next(), Slot(42));
}

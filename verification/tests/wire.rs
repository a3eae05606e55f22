use raxos::codec::{put_u32, put_u64, Cursor};
use raxos::rng::Rng;
use raxos::types::{bytes_from, Bytes, Proposal};
use raxos::wire::{Payload, ReplyFirst};
use raxos::{CommandId, Message, ReplicaId, Slot, WireError};

fn proposal(rng: &mut Rng) -> Proposal {
    let len = (rng.next_u64() % 40) as usize;
    let value: Vec<u8> = (0..len).map(|_| rng.next_u64() as u8).collect();
    Proposal {
        priority: (rng.range_inclusive(1, u32::MAX as u64)) as u32,
        proposer: ReplicaId(rng.range_inclusive(1, 9)),
        value: bytes_from(&value),
    }
}

fn samples(rng: &mut Rng) -> Vec<Message> {
    let value: Bytes = bytes_from(b"some decided value");
    let id = CommandId {
        origin: ReplicaId(rng.range_inclusive(1, 9)),
        boot: rng.next_u64(),
        seq: rng.next_u64(),
    };
    vec![
        Message {
            from: ReplicaId(1),
            decided: Slot(7),
            payload: Payload::Record {
                slot: Slot(8),
                step: 4,
                proposal: proposal(rng),
            },
        },
        Message {
            from: ReplicaId(2),
            decided: Slot(0),
            payload: Payload::RecordReply {
                slot: Slot(8),
                req_step: 4,
                step: 6,
                first: ReplyFirst::Echo,
                prior_agg: None,
            },
        },
        Message {
            from: ReplicaId(3),
            decided: Slot(u64::MAX),
            payload: Payload::RecordReply {
                slot: Slot(1),
                req_step: 9,
                step: 9,
                first: ReplyFirst::Full(proposal(rng)),
                prior_agg: Some(proposal(rng)),
            },
        },
        Message {
            from: ReplicaId(4),
            decided: Slot(3),
            payload: Payload::Decide {
                slot: Slot(4),
                value: value.clone(),
            },
        },
        Message {
            from: ReplicaId(5),
            decided: Slot(3),
            payload: Payload::Forward {
                commands: vec![(id, value.clone()), (id, bytes_from(b""))],
            },
        },
        Message {
            from: ReplicaId(6),
            decided: Slot(3),
            payload: Payload::Learn { from_slot: Slot(4) },
        },
        Message {
            from: ReplicaId(7),
            decided: Slot(9),
            payload: Payload::LearnReply {
                first_slot: Slot(4),
                values: vec![value, bytes_from(b"v2")],
            },
        },
        Message {
            from: ReplicaId(8),
            decided: Slot(1),
            payload: Payload::Ping,
        },
    ]
}

fn assert_equal(a: &Message, b: &Message) {
    // Compare via re-encoding: Message deliberately does not implement
    // PartialEq in its public API.
    assert_eq!(a.encode(), b.encode());
}

#[test]
fn round_trips() {
    let mut rng = Rng::new(11);
    for message in samples(&mut rng) {
        let decoded = Message::decode(&message.encode()).unwrap();
        assert_equal(&message, &decoded);
    }
}

#[test]
fn rejects_truncation_and_trailing_garbage() {
    let mut rng = Rng::new(12);
    for message in samples(&mut rng) {
        let encoded = message.encode();
        for len in 0..encoded.len() {
            assert!(Message::decode(&encoded[..len]).is_err(), "len {len}");
        }
        let mut extended = encoded.clone();
        extended.push(0);
        assert!(Message::decode(&extended).is_err());
    }
}

#[test]
fn rejects_bad_version_kind_and_ids() {
    let mut rng = Rng::new(13);
    let encoded = samples(&mut rng)[0].encode();
    let mut bad_version = encoded.clone();
    bad_version[0] = 2;
    assert!(Message::decode(&bad_version).is_err());
    let mut bad_kind = encoded.clone();
    bad_kind[1] = 99;
    assert!(Message::decode(&bad_kind).is_err());
    let mut zero_from = encoded.clone();
    zero_from[2..10].fill(0);
    assert!(Message::decode(&zero_from).is_err());
}

#[test]
fn random_bytes_never_panic() {
    let mut rng = Rng::new(14);
    for _ in 0..2000 {
        let len = (rng.next_u64() % 64) as usize;
        let data: Vec<u8> = (0..len).map(|_| rng.next_u64() as u8).collect();
        let _ = Message::decode(&data);
    }
    // Mutations of valid messages must never panic either.
    for message in samples(&mut rng) {
        let encoded = message.encode();
        for _ in 0..200 {
            let mut mutated = encoded.clone();
            let idx = (rng.next_u64() as usize) % mutated.len();
            mutated[idx] = rng.next_u64() as u8;
            let _ = Message::decode(&mutated);
        }
    }
}

#[test]
fn ping_encoding_is_exact() {
    let message = Message {
        from: ReplicaId(8),
        decided: Slot(1),
        payload: Payload::Ping,
    };
    let mut expected = vec![1u8, 7];
    expected.extend_from_slice(&8u64.to_le_bytes());
    expected.extend_from_slice(&1u64.to_le_bytes());
    assert_eq!(message.encode(), expected);
}

#[test]
fn record_encoding_is_exact() {
    let message = Message {
        from: ReplicaId(2),
        decided: Slot(5),
        payload: Payload::Record {
            slot: Slot(6),
            step: 4,
            proposal: Proposal {
                priority: 9,
                proposer: ReplicaId(2),
                value: bytes_from(b"abc"),
            },
        },
    };
    let mut expected = vec![1u8, 1];
    expected.extend_from_slice(&2u64.to_le_bytes());
    expected.extend_from_slice(&5u64.to_le_bytes());
    expected.extend_from_slice(&6u64.to_le_bytes());
    expected.extend_from_slice(&4u32.to_le_bytes());
    expected.extend_from_slice(&9u32.to_le_bytes());
    expected.extend_from_slice(&2u64.to_le_bytes());
    expected.extend_from_slice(&3u32.to_le_bytes());
    expected.extend_from_slice(b"abc");
    assert_eq!(message.encode(), expected);
}

#[test]
fn rejects_reserved_priority_and_proposer() {
    let message = Message {
        from: ReplicaId(2),
        decided: Slot(5),
        payload: Payload::Record {
            slot: Slot(6),
            step: 4,
            proposal: Proposal {
                priority: 9,
                proposer: ReplicaId(2),
                value: bytes_from(b"abc"),
            },
        },
    };
    let encoded = message.encode();
    let mut zero_priority = encoded.clone();
    zero_priority[30..34].fill(0);
    assert_eq!(Message::decode(&zero_priority).err(), Some(WireError));
    let mut zero_proposer = encoded.clone();
    zero_proposer[34..42].fill(0);
    assert_eq!(Message::decode(&zero_proposer).err(), Some(WireError));
    assert_eq!(WireError.message(), "malformed raxos message");
}

/// Integers are little-endian in both widths.
#[test]
fn integers_are_little_endian() {
    let mut out = Vec::new();
    put_u32(&mut out, 0x0403_0201);
    put_u64(&mut out, 0xf8f7_f6f5_f4f3_f2f1);
    put_u32(&mut out, u32::MAX);
    put_u64(&mut out, u64::MAX);
    assert_eq!(
        out[..12],
        [1, 2, 3, 4, 0xf1, 0xf2, 0xf3, 0xf4, 0xf5, 0xf6, 0xf7, 0xf8]
    );
    assert_eq!(out[12..], [0xff; 12]);
    let mut cursor = Cursor::new(&out);
    assert_eq!(cursor.u32(), Some(0x0403_0201));
    assert_eq!(cursor.u64(), Some(0xf8f7_f6f5_f4f3_f2f1));
    assert_eq!(cursor.u32(), Some(u32::MAX));
    assert_eq!(cursor.u64(), Some(u64::MAX));
    assert!(cursor.finished());
    assert_eq!(cursor.u32(), None);
    assert_eq!(cursor.u64(), None);
}

//! Single replicas driven by hand.

use raxos::types::{bytes_from, decode_batch, encode_batch, Bytes, Proposal, PRIORITY_H};
use raxos::wire::{Payload, ReplyFirst};
use raxos::{
    Action, CommandId, Config, ConfigError, Message, Replica, ReplicaId, Slot, SubmitError,
    WireError,
};

const MILLIS: u64 = 1_000_000;

fn config(me: u64, n: u64) -> Config {
    let ids: Vec<ReplicaId> = (1..=n).map(ReplicaId).collect();
    Config::new(ids, ReplicaId(me), 100 + me).unwrap()
}

fn replica(me: u64, n: u64) -> Replica {
    Replica::new(config(me, n))
}

fn id(origin: u64, seq: u64) -> CommandId {
    CommandId {
        origin: ReplicaId(origin),
        boot: 1,
        seq,
    }
}

fn batch(commands: &[(CommandId, &[u8])]) -> Bytes {
    let commands: Vec<(CommandId, Bytes)> = commands
        .iter()
        .map(|(id, data)| (*id, bytes_from(data)))
        .collect();
    encode_batch(&commands)
}

fn message(from: u64, decided: u64, payload: Payload) -> Message {
    Message {
        from: ReplicaId(from),
        decided: Slot(decided),
        payload,
    }
}

fn sends(replica: &mut Replica) -> Vec<(u64, Message)> {
    let mut all = Vec::new();
    while let Some(action) = replica.poll_action() {
        if let Action::Send { to, message } = action {
            all.push((to.0, message));
        }
    }
    all
}

fn deliveries(replica: &mut Replica) -> Vec<(Slot, Vec<(CommandId, Vec<u8>)>)> {
    let mut all = Vec::new();
    while let Some(action) = replica.poll_action() {
        if let Action::Deliver { slot, commands } = action {
            all.push((slot, commands));
        }
    }
    all
}

/// A group of one is a local log: a submission is decided and delivered
/// before `submit` returns, and nothing is kept or sent.
#[test]
fn lone_replica_delivers_inside_submit() {
    let mut lone = replica(1, 1);
    assert_eq!(lone.leader(), ReplicaId(1));
    for k in 1..=3u64 {
        let submitted = lone.submit(k, &[k as u8]).unwrap();
        assert_eq!(submitted.seq, k);
        assert_eq!(lone.decided(), Slot(k));
        assert_eq!(lone.retained_bytes(), 0);
        match lone.poll_action() {
            Some(Action::Deliver { slot, commands }) => {
                assert_eq!(slot, Slot(k));
                assert_eq!(commands, vec![(submitted, vec![k as u8])]);
            }
            other => panic!("unexpected {other:?}"),
        }
        assert!(lone.poll_action().is_none());
        lone.tick(k + 1_000 * MILLIS);
        assert!(lone.poll_action().is_none());
    }
    assert_eq!(lone.next_wakeup(), None);
}

/// Ids count up from 1 under the replica's own origin and seed.
#[test]
fn submissions_are_numbered() {
    let mut follower = replica(2, 3);
    for seq in 1..=4 {
        assert_eq!(
            follower.submit(0, b"x"),
            Ok(CommandId {
                origin: ReplicaId(2),
                boot: 102,
                seq,
            })
        );
    }
}

/// The pool refuses what would take it past its limit, and says which limit
/// a submission ran into.
#[test]
fn refused_submissions_change_nothing() {
    let mut follower = Replica::new(config(2, 3).max_pool_bytes(100));
    // 28 bytes of framing per command: two of 20 bytes fit.
    assert!(follower.submit(0, &[0; 20]).is_ok());
    assert!(follower.submit(0, &[0; 20]).is_ok());
    sends(&mut follower);
    assert_eq!(follower.submit(0, &[0; 20]), Err(SubmitError::PoolFull));
    assert_eq!(follower.submit(0, &[]), Err(SubmitError::PoolFull));
    assert!(follower.poll_action().is_none());
    let refused = SubmitError::PoolFull;
    assert_eq!(refused.message(), "command pool is full");
    assert_eq!(
        SubmitError::CommandTooLarge.message(),
        "command exceeds the 1 GiB limit"
    );
}

#[test]
fn errors_have_messages() {
    assert_eq!(ConfigError::NoReplicas.message(), "replica set is empty");
    assert_eq!(
        ConfigError::ZeroReplicaId.message(),
        "replica id 0 is reserved"
    );
    assert_eq!(
        ConfigError::DuplicateReplicaId.message(),
        "duplicate replica id"
    );
    assert_eq!(
        ConfigError::UnknownLocalReplica.message(),
        "local replica is not in the replica set"
    );
    assert_eq!(WireError.message(), "malformed raxos message");
}

/// The leader's proposal carries the reserved priority to every peer, and
/// one echo makes a quorum of three.
#[test]
fn one_echo_decides_on_the_fast_path() {
    let mut leader = replica(1, 3);
    let submitted = leader.submit(5, b"v").unwrap();
    let value = encode_batch(&[(submitted, bytes_from(b"v"))]);
    let out = sends(&mut leader);
    assert_eq!(out.iter().map(|(to, _)| *to).collect::<Vec<_>>(), [2, 3]);
    for (_, sent) in &out {
        match &sent.payload {
            Payload::Record {
                slot,
                step,
                proposal,
            } => {
                assert_eq!((*slot, *step), (Slot(1), 4));
                assert_eq!(proposal.priority, PRIORITY_H);
                assert_eq!(proposal.proposer, ReplicaId(1));
                assert_eq!(proposal.value, value);
            }
            other => panic!("unexpected {other:?}"),
        }
    }
    let echo = || Payload::RecordReply {
        slot: Slot(1),
        req_step: 4,
        step: 4,
        first: ReplyFirst::Echo,
        prior_agg: None,
    };
    leader.receive(6, message(2, 0, echo()));
    assert_eq!(leader.decided(), Slot(1));
    assert_eq!(leader.retained_bytes(), value.len());
    let mut decides = Vec::new();
    let mut delivered = Vec::new();
    while let Some(action) = leader.poll_action() {
        match action {
            Action::Send { to, message } => match message.payload {
                Payload::Decide { slot, value: v } => decides.push((to, slot, v)),
                other => panic!("unexpected {other:?}"),
            },
            Action::Deliver { slot, commands } => delivered.push((slot, commands)),
        }
    }
    assert_eq!(
        decides,
        vec![
            (ReplicaId(2), Slot(1), value.clone()),
            (ReplicaId(3), Slot(1), value.clone())
        ]
    );
    assert_eq!(
        delivered,
        vec![(Slot(1), vec![(submitted, b"v".to_vec())])]
    );
    // The other echo is late; nothing more happens.
    leader.receive(7, message(3, 0, echo()));
    assert!(leader.poll_action().is_none());
}

/// Retransmissions repeat the same bytes, and the recorder answers them the
/// same way.
#[test]
fn retransmission_and_its_answer_are_repeated() {
    let mut leader = replica(1, 3);
    leader.submit(0, b"v").unwrap();
    let first: Vec<Vec<u8>> = sends(&mut leader).iter().map(|(_, m)| m.encode()).collect();
    leader.tick(400 * MILLIS);
    let early = sends(&mut leader);
    assert!(early
        .iter()
        .all(|(_, m)| matches!(m.payload, Payload::Ping)));
    leader.tick(500 * MILLIS);
    let again: Vec<Vec<u8>> = sends(&mut leader)
        .iter()
        .filter(|(_, m)| matches!(m.payload, Payload::Record { .. }))
        .map(|(_, m)| m.encode())
        .collect();
    assert_eq!(first, again);

    let mut recorder = replica(2, 3);
    recorder.receive(1, Message::decode(&first[0]).unwrap());
    let one = sends(&mut recorder);
    recorder.receive(2, Message::decode(&first[0]).unwrap());
    let two = sends(&mut recorder);
    assert_eq!(one.len(), 1);
    assert_eq!(two.len(), 1);
    assert_eq!(one[0].0, 1);
    assert_eq!(one[0].1.encode(), two[0].1.encode());
    assert!(matches!(
        one[0].1.payload,
        Payload::RecordReply {
            slot: Slot(1),
            req_step: 4,
            step: 4,
            first: ReplyFirst::Echo,
            prior_agg: None,
        }
    ));
}

/// A recorder's first proposal of a step stands: a later, higher one is
/// answered with the first in full.
#[test]
fn recorder_keeps_the_first_proposal() {
    let mut recorder = replica(3, 3);
    let record = |from: u64, priority: u32, value: &Bytes| {
        message(
            from,
            0,
            Payload::Record {
                slot: Slot(1),
                step: 4,
                proposal: Proposal {
                    priority,
                    proposer: ReplicaId(from),
                    value: value.clone(),
                },
            },
        )
    };
    let a = batch(&[(id(1, 1), b"a")]);
    let b = batch(&[(id(2, 1), b"b")]);
    recorder.receive(0, record(2, 7, &b));
    sends(&mut recorder);
    recorder.receive(0, record(1, PRIORITY_H, &a));
    let out = sends(&mut recorder);
    assert_eq!(out.len(), 1);
    assert_eq!(out[0].0, 1);
    match &out[0].1.payload {
        Payload::RecordReply {
            first: ReplyFirst::Full(p),
            ..
        } => {
            assert_eq!((p.priority, p.proposer), (7, ReplicaId(2)));
            assert_eq!(p.value, b);
        }
        other => panic!("unexpected {other:?}"),
    }
}

/// Once a slot is decided, a `Record` for it is answered with the decision.
#[test]
fn decided_slots_answer_with_the_decision() {
    let mut replica = replica(3, 3);
    let value = batch(&[(id(1, 1), b"a")]);
    replica.receive(
        0,
        message(
            1,
            0,
            Payload::Decide {
                slot: Slot(1),
                value: value.clone(),
            },
        ),
    );
    sends(&mut replica);
    replica.receive(
        1,
        message(
            2,
            0,
            Payload::Record {
                slot: Slot(1),
                step: 4,
                proposal: Proposal {
                    priority: 9,
                    proposer: ReplicaId(2),
                    value: batch(&[]),
                },
            },
        ),
    );
    let out = sends(&mut replica);
    assert_eq!(out.len(), 1);
    assert_eq!(out[0].0, 2);
    assert_eq!(out[0].1.decided, Slot(1));
    match &out[0].1.payload {
        Payload::Decide { slot, value: v } => assert_eq!((*slot, v), (Slot(1), &value)),
        other => panic!("unexpected {other:?}"),
    }
}

/// Decisions that arrive out of order are delivered in order, and a second
/// decision for a slot changes nothing.
#[test]
fn decisions_are_delivered_in_slot_order() {
    let mut replica = replica(3, 3);
    let values = [
        batch(&[(id(1, 1), b"a")]),
        batch(&[]),
        batch(&[(id(1, 2), b"c"), (id(2, 1), b"d")]),
    ];
    let decide = |slot: u64| {
        message(
            1,
            0,
            Payload::Decide {
                slot: Slot(slot),
                value: values[slot as usize - 1].clone(),
            },
        )
    };
    replica.receive(0, decide(3));
    replica.receive(0, decide(2));
    assert_eq!(replica.decided(), Slot(0));
    assert_eq!(
        replica.retained_bytes(),
        values[1].len() + values[2].len()
    );
    assert!(deliveries(&mut replica).is_empty());
    replica.receive(0, decide(1));
    replica.receive(0, decide(3));
    assert_eq!(replica.decided(), Slot(3));
    assert_eq!(
        deliveries(&mut replica),
        vec![
            (Slot(1), vec![(id(1, 1), b"a".to_vec())]),
            (Slot(2), vec![]),
            (
                Slot(3),
                vec![(id(1, 2), b"c".to_vec()), (id(2, 1), b"d".to_vec())]
            ),
        ]
    );
}

/// Messages from outside the group, and from itself, change nothing.
#[test]
fn unknown_senders_are_ignored() {
    let mut replica = replica(2, 3);
    let value = batch(&[(id(1, 1), b"a")]);
    for from in [2, 4, 99] {
        replica.receive(
            0,
            message(
                from,
                7,
                Payload::Decide {
                    slot: Slot(1),
                    value: value.clone(),
                },
            ),
        );
    }
    assert_eq!(replica.decided(), Slot(0));
    assert_eq!(replica.retained_bytes(), 0);
    assert!(replica.poll_action().is_none());
}

/// Catch-up: a watermark ahead of ours makes us ask, and the answer brings
/// the consecutive values from the slot asked for.
#[test]
fn learn_brings_consecutive_values() {
    let values: Vec<Bytes> = (1..=3u64).map(|k| batch(&[(id(1, k), b"x")])).collect();
    let mut ahead = replica(1, 3);
    for k in 1..=3u64 {
        ahead.receive(
            0,
            message(
                2,
                0,
                Payload::Decide {
                    slot: Slot(k),
                    value: values[k as usize - 1].clone(),
                },
            ),
        );
    }
    sends(&mut ahead);

    let mut behind = replica(3, 3);
    behind.receive(0, message(1, 3, Payload::Ping));
    let asked = sends(&mut behind);
    assert_eq!(asked.len(), 1);
    assert_eq!(asked[0].0, 1);
    assert!(matches!(
        asked[0].1.payload,
        Payload::Learn { from_slot: Slot(1) }
    ));

    ahead.receive(1, Message::decode(&asked[0].1.encode()).unwrap());
    let mut answered = sends(&mut ahead);
    assert_eq!(answered.len(), 1);
    match &answered[0].1.payload {
        Payload::LearnReply {
            first_slot,
            values: v,
        } => assert_eq!((*first_slot, v), (Slot(1), &values)),
        other => panic!("unexpected {other:?}"),
    }
    behind.receive(2, answered.remove(0).1);
    assert_eq!(behind.decided(), Slot(3));
    assert_eq!(deliveries(&mut behind).len(), 3);
}

/// Values are kept until every replica has acknowledged them, when nothing
/// bounds the retention.
#[test]
fn values_are_kept_until_acknowledged() {
    let mut replica = Replica::new(config(3, 3).max_retained_bytes(usize::MAX));
    let value = batch(&[(id(1, 1), b"a")]);
    replica.receive(
        0,
        message(
            1,
            1,
            Payload::Decide {
                slot: Slot(1),
                value: value.clone(),
            },
        ),
    );
    assert_eq!(replica.decided(), Slot(1));
    assert_eq!(replica.retained_bytes(), value.len());
    replica.receive(1, message(2, 1, Payload::Ping));
    assert_eq!(replica.retained_bytes(), 0);
}

/// Past the budget, delivered values are freed unacknowledged.
#[test]
fn retention_budget_frees_the_oldest() {
    let values: Vec<Bytes> = (1..=5u64).map(|k| batch(&[(id(1, k), &[0; 100])])).collect();
    let budget = 2 * values[0].len();
    let mut replica = Replica::new(config(3, 3).max_retained_bytes(budget));
    for k in 1..=5u64 {
        replica.receive(
            0,
            message(
                1,
                0,
                Payload::Decide {
                    slot: Slot(k),
                    value: values[k as usize - 1].clone(),
                },
            ),
        );
        assert!(replica.retained_bytes() <= budget);
    }
    assert_eq!(replica.decided(), Slot(5));
    assert_eq!(replica.retained_bytes(), budget);
}

/// A follower forwards to the leader first and then in turn to the others, as
/// long as the leader's progress keeps it from proposing itself.
#[test]
fn forwards_rotate_through_the_group() {
    let mut follower = replica(3, 4);
    follower.submit(0, b"x").unwrap();
    let mut targets = Vec::new();
    for k in 1..=5u64 {
        for (to, sent) in sends(&mut follower) {
            if let Payload::Forward { commands } = &sent.payload {
                assert_eq!(commands.len(), 1);
                assert_eq!(*commands[0].1, b"x".to_vec());
                targets.push(to);
            }
        }
        let now = k * 1_000 * MILLIS;
        follower.receive(
            now,
            message(
                1,
                0,
                Payload::Record {
                    slot: Slot(1),
                    step: 4 * k as u32,
                    proposal: Proposal {
                        priority: 5,
                        proposer: ReplicaId(1),
                        value: batch(&[]),
                    },
                },
            ),
        );
        follower.tick(now);
    }
    assert_eq!(targets, [1, 2, 4, 1, 2]);
}

/// Batches keep to their limit, but for a single oversized command.
#[test]
fn batches_keep_to_their_limit() {
    let mut leader = Replica::new(config(1, 3).max_batch_bytes(100));
    let commands: Vec<(CommandId, Bytes)> = [(1, 20), (2, 20), (3, 300), (4, 20)]
        .iter()
        .map(|(seq, len)| (id(2, *seq), bytes_from(&vec![0; *len])))
        .collect();
    leader.receive(0, message(2, 0, Payload::Forward { commands }));
    let mut batches = Vec::new();
    for (to, sent) in sends(&mut leader) {
        if let (2, Payload::Record { proposal, .. }) = (to, &sent.payload) {
            let seqs: Vec<u64> = decode_batch(&proposal.value)
                .unwrap()
                .iter()
                .map(|(id, _)| id.seq)
                .collect();
            batches.push(seqs);
        }
    }
    assert_eq!(batches, [vec![1, 2], vec![3], vec![4]]);
}

/// A tick at the advertised time leaves only later times.
#[test]
fn ticks_move_the_wakeup_on() {
    let mut follower = replica(3, 3);
    follower.submit(0, b"x").unwrap();
    follower.receive(0, message(1, 4, Payload::Ping));
    for _ in 0..50 {
        let at = follower.next_wakeup().unwrap();
        follower.tick(at);
        assert!(follower.next_wakeup().unwrap() > at);
        while follower.poll_action().is_some() {}
    }
}

/// The same configuration and inputs give the same bytes.
#[test]
fn same_inputs_same_bytes() {
    let run = || {
        let mut follower = replica(2, 3);
        let mut bytes = Vec::new();
        for k in 0..40u64 {
            follower.submit(k * 100 * MILLIS, &[k as u8]).unwrap();
            follower.tick(k * 100 * MILLIS);
            for (to, sent) in sends(&mut follower) {
                bytes.push((to, sent.encode()));
            }
        }
        bytes
    };
    let once = run();
    assert!(once.len() > 40);
    assert_eq!(once, run());
}

/// A hedging follower proposes with a drawn priority, never the reserved one,
/// once the slot has been idle for its place in the schedule.
#[test]
fn hedged_proposals_draw_their_priority() {
    let mut follower = replica(2, 3);
    follower.submit(0, b"x").unwrap();
    follower.tick(0);
    let quiet = sends(&mut follower);
    assert!(quiet
        .iter()
        .all(|(_, m)| !matches!(m.payload, Payload::Record { .. })));
    follower.tick(199 * MILLIS);
    let quiet = sends(&mut follower);
    assert!(quiet
        .iter()
        .all(|(_, m)| !matches!(m.payload, Payload::Record { .. })));
    follower.tick(200 * MILLIS);
    let mut records = 0;
    for (_, sent) in sends(&mut follower) {
        if let Payload::Record { step, proposal, .. } = &sent.payload {
            records += 1;
            assert_eq!(*step, 4);
            assert!((1..PRIORITY_H).contains(&proposal.priority));
            assert_eq!(proposal.proposer, ReplicaId(2));
        }
    }
    assert_eq!(records, 2);
}

/// A submitted command that loses its slot waits for another one, and leaves
/// the pool only when it is delivered.
#[test]
fn submissions_wait_until_delivered() {
    let mut follower = replica(2, 3);
    let own = follower.submit(0, b"own").unwrap();
    sends(&mut follower);
    let decide = |slot: u64, value: Bytes| {
        message(
            1,
            0,
            Payload::Decide {
                slot: Slot(slot),
                value,
            },
        )
    };
    let forwarded = |out: Vec<(u64, Message)>| -> Vec<CommandId> {
        let mut ids = Vec::new();
        for (_, sent) in out {
            if let Payload::Forward { commands } = sent.payload {
                ids.extend(commands.iter().map(|(id, _)| *id));
            }
        }
        ids
    };
    // The follower hedges with its command in slot 1 and stops forwarding it.
    follower.tick(0);
    follower.tick(600 * MILLIS);
    sends(&mut follower);
    // Slot 1 goes to another command: its own is free again, and forwarded.
    follower.receive(601 * MILLIS, decide(1, batch(&[(id(3, 1), b"other")])));
    assert_eq!(deliveries(&mut follower).len(), 1);
    follower.tick(1_200 * MILLIS);
    assert_eq!(forwarded(sends(&mut follower)), [own]);
    // Slot 2 brings it; there is nothing left to forward.
    follower.receive(1_201 * MILLIS, decide(2, batch(&[(own, b"own")])));
    assert_eq!(
        deliveries(&mut follower),
        vec![(Slot(2), vec![(own, b"own".to_vec())])]
    );
    follower.tick(10_000 * MILLIS);
    assert!(forwarded(sends(&mut follower)).is_empty());
}

/// Two replicas that are given the same decisions, in whatever order, hand
/// out the same log.
#[test]
fn decision_order_does_not_matter() {
    let values: Vec<Bytes> = vec![
        batch(&[(id(1, 1), b"a"), (id(3, 2), b"late")]),
        batch(&[(id(1, 1), b"a"), (id(3, 1), b"early")]),
        batch(&[(id(3, 2), b"late"), (id(1, 2), b"b")]),
    ];
    let run = |me: u64, order: [usize; 3]| {
        let mut replica = replica(me, 3);
        for k in order {
            replica.receive(
                0,
                message(
                    3 - me,
                    0,
                    Payload::Decide {
                        slot: Slot(k as u64 + 1),
                        value: values[k].clone(),
                    },
                ),
            );
        }
        deliveries(&mut replica)
    };
    let log = run(1, [0, 1, 2]);
    assert_eq!(log, run(2, [2, 0, 1]));
    assert_eq!(
        log,
        vec![
            (
                Slot(1),
                vec![(id(1, 1), b"a".to_vec()), (id(3, 2), b"late".to_vec())]
            ),
            (Slot(2), vec![(id(3, 1), b"early".to_vec())]),
            (Slot(3), vec![(id(1, 2), b"b".to_vec())]),
        ]
    );
}

/// A second decision for a slot, with the same value or another, changes
/// nothing, and proposers keep being answered with the first.
#[test]
fn second_decisions_change_nothing() {
    let mut replica = replica(3, 3);
    let first = batch(&[(id(1, 1), b"first")]);
    let ahead = batch(&[(id(1, 2), b"ahead")]);
    let other = batch(&[(id(2, 1), b"other")]);
    let decide = |slot: u64, value: &Bytes| {
        message(
            1,
            0,
            Payload::Decide {
                slot: Slot(slot),
                value: value.clone(),
            },
        )
    };
    replica.receive(0, decide(1, &first));
    replica.receive(0, decide(3, &ahead));
    while replica.poll_action().is_some() {}
    let kept = replica.retained_bytes();
    for (slot, value) in [(1, &first), (1, &other), (3, &ahead), (3, &other)] {
        replica.receive(1, decide(slot, value));
        assert!(replica.poll_action().is_none());
        assert_eq!(replica.decided(), Slot(1));
        assert_eq!(replica.retained_bytes(), kept);
    }
    for (slot, value) in [(1, &first), (3, &ahead)] {
        replica.receive(
            2,
            message(
                2,
                0,
                Payload::Record {
                    slot: Slot(slot),
                    step: 4,
                    proposal: Proposal {
                        priority: 9,
                        proposer: ReplicaId(2),
                        value: other.clone(),
                    },
                },
            ),
        );
        let out = sends(&mut replica);
        assert_eq!(out.len(), 1);
        match &out[0].1.payload {
            Payload::Decide { slot: s, value: v } => assert_eq!((s.0, v), (slot, value)),
            other => panic!("unexpected {other:?}"),
        }
    }
}

/// Past the budget the oldest delivered slots go first; what is decided ahead
/// of the watermark stays.
#[test]
fn eviction_is_oldest_first_and_stops_at_the_watermark() {
    let value = |k: u64| batch(&[(id(1, k), &[0; 100])]);
    let one = value(1).len();
    let mut replica = Replica::new(config(3, 3).max_retained_bytes(3 * one));
    let decide = |slot: u64| {
        message(
            1,
            0,
            Payload::Decide {
                slot: Slot(slot),
                value: value(slot),
            },
        )
    };
    replica.receive(0, decide(5));
    replica.receive(0, decide(6));
    for slot in 1..=3 {
        replica.receive(0, decide(slot));
    }
    assert_eq!(replica.decided(), Slot(3));
    assert_eq!(replica.retained_bytes(), 3 * one);
    while replica.poll_action().is_some() {}
    // Slots 1 and 2 are gone, slot 3 is there.
    for (slot, answered) in [(1, false), (2, false), (3, true)] {
        replica.receive(
            1,
            message(
                2,
                0,
                Payload::Learn {
                    from_slot: Slot(slot),
                },
            ),
        );
        assert_eq!(!sends(&mut replica).is_empty(), answered);
    }
    // Slots 5 and 6 were kept: slot 4 is all that was missing.
    replica.receive(2, decide(4));
    assert_eq!(replica.decided(), Slot(6));
}

/// A step is repeated to each other replica at the delay, not before, and at
/// the delay again.
#[test]
fn unanswered_steps_are_repeated() {
    let mut follower = replica(2, 4);
    follower.submit(0, b"x").unwrap();
    follower.tick(0);
    sends(&mut follower);
    follower.tick(200 * MILLIS);
    let records = |out: Vec<(u64, Message)>| -> Vec<(u64, Vec<u8>)> {
        out.iter()
            .filter(|(_, m)| matches!(m.payload, Payload::Record { .. }))
            .map(|(to, m)| (*to, m.encode()))
            .collect()
    };
    let first = records(sends(&mut follower));
    assert_eq!(
        first.iter().map(|(to, _)| *to).collect::<Vec<_>>(),
        [1, 3, 4]
    );
    for now in [300, 699] {
        follower.tick(now * MILLIS);
        assert!(records(sends(&mut follower)).is_empty());
    }
    for now in [700, 1_200, 2_000] {
        follower.tick(now * MILLIS);
        assert_eq!(records(sends(&mut follower)), first);
    }
}

/// The short forms that logs show.
#[test]
fn debug_forms_are_short() {
    assert_eq!(format!("{:?}", ReplicaId(7)), "r7");
    assert_eq!(format!("{:?}", Slot(12)), "slot12");
    let command = CommandId {
        origin: ReplicaId(3),
        boot: 0x2a,
        seq: 5,
    };
    assert_eq!(format!("{command:?}"), "cmd(r3,2a,5)");
    let proposal = Proposal {
        priority: PRIORITY_H,
        proposer: ReplicaId(1),
        value: bytes_from(b"abc"),
    };
    assert_eq!(format!("{proposal:?}"), "prop(pri=ffffffff,r1,3B)");
    let ping = message(2, 9, Payload::Ping);
    assert_eq!(format!("{ping:?}"), "Message(Ping from=r2 decided=9)");
    let send = Action::Send {
        to: ReplicaId(4),
        message: ping,
    };
    assert_eq!(
        format!("{send:?}"),
        "Send(r4, Message(Ping from=r2 decided=9))"
    );
    let deliver = Action::Deliver {
        slot: Slot(3),
        commands: vec![(command, b"x".to_vec())],
    };
    assert_eq!(format!("{deliver:?}"), "Deliver(slot3, 1 commands)");
}

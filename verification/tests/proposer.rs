use raxos::proposer::{Folded, Member, Run, StepOutcome};
use raxos::rng::Rng;
use raxos::types::{bytes_from, Bytes, Priority, Proposal, PRIORITY_H};
use raxos::ReplicaId;

fn arc(bytes: &[u8]) -> Bytes {
    bytes_from(bytes)
}

fn p(priority: u32, proposer: u64, value: &[u8]) -> Proposal {
    Proposal {
        priority,
        proposer: ReplicaId(proposer),
        value: bytes_from(value),
    }
}

fn member(me: u64, me_idx: usize, n: usize) -> Member {
    Member {
        me: ReplicaId(me),
        me_idx,
        n,
        quorum: n / 2 + 1,
    }
}

#[test]
fn leader_fast_path_decides_at_step_4() {
    let mut rng = Rng::new(1);
    let mut run = Run::start(arc(b"v"), member(1, 0, 3), true, 0, &mut rng);
    assert_eq!(run.step, 4);
    // The leader's own proposal carries H to every recorder.
    assert_eq!(run.proposal_for(0).priority, PRIORITY_H);
    assert_eq!(run.proposal_for(2).priority, PRIORITY_H);
    for idx in 0..2 {
        let reply = run.proposal_for(idx);
        match run.fold(idx, 4, 4, reply, None, 2) {
            Folded::Ignored if idx == 0 => {}
            Folded::Quorum if idx == 1 => {}
            _ => panic!("unexpected fold outcome"),
        }
    }
    match run.step_complete() {
        StepOutcome::Decided(value) => assert_eq!(&**value, b"v"),
        _ => panic!("expected fast-path decision"),
    }
}

#[test]
fn slow_path_adopts_best_first_and_decides_in_phase_2() {
    let mut rng = Rng::new(2);
    let m = member(2, 1, 3);
    let mut run = Run::start(arc(b"mine"), m, false, 0, &mut rng);
    // Phase 0: replies carry different first proposals; the best wins.
    let winner = p(900, 3, b"theirs");
    assert!(matches!(
        run.fold(0, 4, 4, p(10, 1, b"loser"), None, 2),
        Folded::Ignored
    ));
    assert!(matches!(
        run.fold(1, 4, 4, winner.clone(), None, 2),
        Folded::Quorum
    ));
    assert!(matches!(run.step_complete(), StepOutcome::Advance));
    assert_eq!(run.step, 5);
    assert_eq!(run.proposal, winner);

    // Phase 1: any two same-step replies advance.
    run.begin_step(m, false, 0, &mut rng);
    run.fold(0, 5, 5, p(1, 1, b"x"), None, 2);
    assert!(matches!(
        run.fold(1, 5, 5, p(1, 1, b"x"), None, 2),
        Folded::Quorum
    ));
    assert!(matches!(run.step_complete(), StepOutcome::Advance));

    // Phase 2: aggregates equal to our proposal decide it.
    run.begin_step(m, false, 0, &mut rng);
    run.fold(0, 6, 6, p(1, 1, b"x"), Some(winner.clone()), 2);
    assert!(matches!(
        run.fold(1, 6, 6, p(1, 1, b"x"), Some(p(5, 1, b"low")), 2),
        Folded::Quorum
    ));
    match run.step_complete() {
        StepOutcome::Decided(value) => assert_eq!(&**value, b"theirs"),
        _ => panic!("expected phase-2 decision"),
    }
}

#[test]
fn phase_2_without_matching_aggregate_advances_and_phase_3_adopts() {
    let mut rng = Rng::new(3);
    let m = member(1, 0, 3);
    let mut run = Run::start(arc(b"mine"), m, false, 0, &mut rng);
    run.fold(0, 4, 4, p(7, 1, b"a"), None, 1);
    run.step_complete();
    run.begin_step(m, false, 0, &mut rng);
    run.fold(0, 5, 5, p(7, 1, b"a"), None, 1);
    run.step_complete();
    run.begin_step(m, false, 0, &mut rng);
    // Phase 2 whose best aggregate differs from our proposal: no decide.
    run.fold(0, 6, 6, p(7, 1, b"a"), Some(p(9000, 3, b"b")), 1);
    assert!(matches!(run.step_complete(), StepOutcome::Advance));
    assert_eq!(run.step, 7);
    run.begin_step(m, false, 0, &mut rng);
    // Phase 3 adopts the best aggregate as the next round's candidate.
    let carried = p(123, 2, b"c");
    run.fold(0, 7, 7, p(7, 1, b"a"), Some(carried.clone()), 1);
    assert!(matches!(run.step_complete(), StepOutcome::Advance));
    assert_eq!(run.step, 8);
    assert_eq!(run.proposal, carried);
    // The next phase 0 re-randomizes under our identity but keeps the
    // carried value.
    run.begin_step(m, false, 0, &mut rng);
    let sent = run.proposal_for(2);
    assert_eq!(sent.proposer, ReplicaId(1));
    assert_eq!(&**sent.value, b"c");
    assert_ne!(sent.priority, PRIORITY_H);
}

#[test]
fn catch_up_adopts_wholesale_and_duplicates_are_ignored() {
    let mut rng = Rng::new(4);
    let mut run = Run::start(arc(b"mine"), member(1, 0, 3), true, 0, &mut rng);
    let ahead = p(55, 3, b"ahead");
    match run.fold(2, 4, 11, ahead.clone(), None, 2) {
        Folded::CatchUp { step, adopt } => {
            assert_eq!(step, 11);
            assert_eq!(adopt, ahead);
        }
        _ => panic!("expected catch-up"),
    }
    // Same recorder counted twice: second fold is ignored.
    assert!(matches!(
        run.fold(1, 4, 4, p(1, 1, b"x"), None, 2),
        Folded::Ignored
    ));
    assert!(matches!(
        run.fold(1, 4, 4, p(1, 1, b"x"), None, 2),
        Folded::Ignored
    ));
    // Stale replies (older request step) are ignored.
    assert!(matches!(
        run.fold(0, 3, 3, p(1, 1, b"x"), None, 2),
        Folded::Ignored
    ));
}

#[test]
fn retransmission_is_byte_identical() {
    let mut rng = Rng::new(5);
    let run = Run::start(arc(b"v"), member(2, 1, 5), false, 0, &mut rng);
    for idx in 0..5 {
        assert_eq!(run.proposal_for(idx), run.proposal_for(idx));
    }
    // Distinct recorders get independent draws (overwhelmingly distinct).
    let all: Vec<Priority> = (0..5).map(|idx| run.proposal_for(idx).priority).collect();
    let mut deduped = all.clone();
    deduped.sort_unstable();
    deduped.dedup();
    assert_eq!(all.len(), deduped.len());
}

#[test]
fn phase_3_without_aggregates_stalls() {
    let mut rng = Rng::new(6);
    let m = member(1, 0, 3);
    let mut run = Run::start(arc(b"v"), m, true, 0, &mut rng);
    run.step = 7;
    run.begin_step(m, true, 0, &mut rng);
    run.fold(0, 7, 7, p(7, 1, b"a"), None, 2);
    assert!(matches!(
        run.fold(1, 7, 7, p(7, 1, b"a"), None, 2),
        Folded::Quorum
    ));
    assert!(matches!(run.step_complete(), StepOutcome::Retry));
    assert_eq!(run.step, 7);
    assert_eq!(run.reply_count, 0);
}

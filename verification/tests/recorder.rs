use raxos::recorder::{reply_first, IsrSlot};
use raxos::types::{bytes_from, Proposal};
use raxos::wire::ReplyFirst;
use raxos::ReplicaId;

fn p(priority: u32, proposer: u64, value: &[u8]) -> Proposal {
    Proposal {
        priority,
        proposer: ReplicaId(proposer),
        value: bytes_from(value),
    }
}

#[test]
fn first_step_records_first_and_aggregate() {
    let mut isr = IsrSlot::new();
    let (s, _) = isr.record(4, p(10, 1, b"a"));
    assert_eq!(s.step, 4);
    assert_eq!(s.first, p(10, 1, b"a"));
    assert_eq!(s.prior_agg, None);
}

#[test]
fn same_step_aggregates_max_but_keeps_first() {
    let mut isr = IsrSlot::new();
    isr.record(4, p(10, 1, b"a"));
    let (s, _) = isr.record(4, p(50, 2, b"b"));
    assert_eq!(s.step, 4);
    assert_eq!(s.first, p(10, 1, b"a"), "F_c is immutable within a step");
    // The aggregate becomes visible as A_p after advancing one step.
    let (s, _) = isr.record(5, p(1, 3, b"c"));
    assert_eq!(s.step, 5);
    assert_eq!(s.first, p(1, 3, b"c"));
    assert_eq!(s.prior_agg, Some(p(50, 2, b"b")));
}

#[test]
fn aggregate_ignores_lower_proposals() {
    let mut isr = IsrSlot::new();
    isr.record(4, p(50, 1, b"a"));
    isr.record(4, p(10, 2, b"b"));
    let (s, _) = isr.record(5, p(1, 3, b"c"));
    assert_eq!(s.prior_agg, Some(p(50, 1, b"a")));
}

#[test]
fn skipping_steps_nils_prior_aggregate() {
    let mut isr = IsrSlot::new();
    isr.record(4, p(10, 1, b"a"));
    let (s, _) = isr.record(6, p(20, 2, b"b"));
    assert_eq!(s.step, 6);
    assert_eq!(s.first, p(20, 2, b"b"));
    assert_eq!(s.prior_agg, None, "nothing was seen in step 5");
}

#[test]
fn stale_step_is_ignored_but_summarized() {
    let mut isr = IsrSlot::new();
    isr.record(6, p(10, 1, b"a"));
    let (s, _) = isr.record(4, p(99, 2, b"b"));
    assert_eq!(s.step, 6, "stale proposal must not regress the step");
    assert_eq!(s.first, p(10, 1, b"a"));
    // The stale proposal was dropped entirely.
    let (s, _) = isr.record(7, p(1, 3, b"c"));
    assert_eq!(s.prior_agg, Some(p(10, 1, b"a")));
}

#[test]
fn step_is_monotone() {
    let mut isr = IsrSlot::new();
    let mut last = 0;
    for (step, pri) in [(4, 3), (4, 9), (7, 2), (5, 8), (7, 1), (12, 5)] {
        let (s, _) = isr.record(step, p(pri, 1, b"x"));
        assert!(s.step >= last);
        last = s.step;
    }
}

#[test]
fn reply_first_elides_exact_echo_only() {
    let request = p(10, 1, b"a");
    assert!(matches!(
        reply_first(&request.clone(), &request),
        ReplyFirst::Echo
    ));
    // Same priority and proposer but different value: no elision.
    assert!(matches!(
        reply_first(&p(10, 1, b"other"), &request),
        ReplyFirst::Full(_)
    ));
    assert!(matches!(
        reply_first(&p(11, 1, b"a"), &request),
        ReplyFirst::Full(_)
    ));
}

#[test]
fn only_real_changes_are_reported() {
    let mut isr = IsrSlot::new();
    assert!(isr.record(4, p(10, 1, b"a")).1);
    assert!(!isr.record(4, p(10, 1, b"a")).1, "retransmission");
    assert!(!isr.record(4, p(9, 1, b"a")).1, "below the aggregate");
    assert!(isr.record(4, p(11, 1, b"a")).1, "raises the aggregate");
    assert!(isr.record(5, p(1, 1, b"a")).1, "starts a step");
    assert!(!isr.record(4, p(99, 1, b"a")).1, "stale");
}

use orderbook_aggregator::connection::{CloseAction, CloseOutcome, CloseSequence};

fn run(outcomes: &[CloseOutcome]) -> (Vec<usize>, usize) {
    let mut seq = CloseSequence::new(outcomes.len());
    let mut closed = Vec::new();
    while let CloseAction::Close(i) = seq.next_action() {
        closed.push(i);
        seq.record(outcomes[i]);
    }
    (closed, seq.failure_count())
}

#[test]
fn closes_every_connection_despite_failures() {
    let (closed, failures) = run(&[CloseOutcome::Failed, CloseOutcome::Closed, CloseOutcome::Failed]);
    assert_eq!(closed, vec![0, 1, 2]);
    assert_eq!(failures, 2);
}

#[test]
fn closes_all_when_every_close_fails() {
    let (closed, failures) = run(&[CloseOutcome::Failed; 4]);
    assert_eq!(closed, vec![0, 1, 2, 3]);
    assert_eq!(failures, 4);
}

#[test]
fn empty_group_is_done_at_once() {
    let seq = CloseSequence::new(0);
    assert_eq!(seq.next_action(), CloseAction::Done);
}

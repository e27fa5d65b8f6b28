use clique::monitor::{PingPong, ProbeOutcome, ProbeTally, BOOTSTRAP_COUNT_THRESHOLD, FAILURE_THRESHOLD};
use clique::transport::proto::NodeStatus;
use clique::transport::Response;
use std::time::Duration;

#[test]
fn ping_pong_keeps_its_timing() {
    let p = PingPong::new(Duration::from_secs(10), Duration::from_millis(250));
    assert_eq!(p.timeout(), Duration::from_secs(10));
    assert_eq!(p.tick_delay(), Duration::from_millis(250));
}

#[test]
fn five_timeouts_report_the_subject() {
    let mut t = ProbeTally::new();
    for _ in 0..FAILURE_THRESHOLD - 1 {
        assert!(!t.record(&ProbeOutcome::TimedOut));
    }
    assert!(t.record(&ProbeOutcome::TimedOut));
}

#[test]
fn failed_sends_and_up_answers_count_nothing() {
    let mut t = ProbeTally::new();
    for _ in 0..100 {
        assert!(!t.record(&ProbeOutcome::Failed));
        assert!(!t.record(&ProbeOutcome::Answered(Response::new_probe(NodeStatus::Up))));
    }
}

#[test]
fn bootstrapping_too_long_counts_as_failure() {
    let mut t = ProbeTally::new();
    for _ in 0..BOOTSTRAP_COUNT_THRESHOLD {
        assert!(!t.record(&ProbeOutcome::Answered(Response::new_probe(NodeStatus::Bootstrapping))));
    }
    for _ in 0..FAILURE_THRESHOLD - 1 {
        assert!(!t.record(&ProbeOutcome::Answered(Response::new_probe(NodeStatus::Bootstrapping))));
    }
    assert!(t.record(&ProbeOutcome::Answered(Response::new_probe(NodeStatus::Bootstrapping))));
}

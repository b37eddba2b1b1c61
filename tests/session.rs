use collab_core::session::{try_write_outcome, CollabError, RetryStep, WriteRetry};

#[test]
fn try_write_reports_contention() {
    assert!(try_write_outcome(true).is_ok());
    assert!(matches!(try_write_outcome(false), Err(CollabError::Contended)));
}

#[test]
fn write_retry_backs_off_until_deadline() {
    let mut r = WriteRetry::new(1000, 100, 10, 40);
    assert_eq!(r.deadline_ms, 1100);
    assert!(matches!(r.step(1000, false), RetryStep::Wait(10)));
    assert!(matches!(r.step(1010, false), RetryStep::Wait(20)));
    assert!(matches!(r.step(1030, false), RetryStep::Wait(40)));
    assert!(matches!(r.step(1070, false), RetryStep::Wait(30)));
    assert!(matches!(r.step(1100, false), RetryStep::Fail(CollabError::Timeout)));
    assert!(matches!(r.step(1100, true), RetryStep::Write));
    let r = WriteRetry::new(u64::MAX - 1, 10, 1, 1);
    assert_eq!(r.deadline_ms, u64::MAX);
}

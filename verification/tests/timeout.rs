use psicose::timeout::{IdleBudget, RetryPolicy};
use psicose::Error;

#[test]
fn default_is_conservative_but_bounded() {
    let policy = RetryPolicy::default();
    assert!(policy.timeout_ticks > 0);
    assert!(policy.max_retries > 0);
}

#[test]
fn zero_retries_means_send_once() {
    let policy = RetryPolicy::new(10, 0);
    assert_eq!(policy.max_retries, 0);
}

#[test]
fn idle_budget_trips_after_limit() {
    let mut b = IdleBudget::new(2);
    assert_eq!(b.tick::<()>(), Ok(()));
    assert_eq!(b.tick::<()>(), Ok(()));
    assert_eq!(b.tick::<()>(), Err(Error::IdleBudgetExhausted));
}

#[test]
fn idle_budget_reset_clears_streak() {
    let mut b = IdleBudget::new(1);
    assert_eq!(b.tick::<()>(), Ok(()));
    b.reset();
    assert_eq!(b.tick::<()>(), Ok(()));
    assert_eq!(b.tick::<()>(), Err(Error::IdleBudgetExhausted));
}

#[test]
fn unbounded_idle_budget_never_trips() {
    let mut b = IdleBudget::unbounded();
    for _ in 0..10_000 {
        assert_eq!(b.tick::<()>(), Ok(()));
    }
}

#[test]
fn retry_policy_keeps_what_it_was_given() {
    let policy = RetryPolicy::new(7, 3);
    assert_eq!(policy.timeout_ticks, 7);
    assert_eq!(policy.max_retries, 3);
}

use lumos::lifecycle::AlreadyRunning;
use lumos::lifecycle::LifecycleGuard;

#[test]
fn second_acquire_reports_already_running() {
    let mut g = LifecycleGuard::new();
    assert!(g.acquire().is_ok());
    assert_eq!(g.acquire(), Err(AlreadyRunning));
}

#[test]
fn acquire_succeeds_again_after_release() {
    let mut g = LifecycleGuard::new();
    assert!(g.acquire().is_ok());
    assert_eq!(g.acquire(), Err(AlreadyRunning));
    // a termination signal releases the marker before the process exits
    g.release();
    assert!(g.acquire().is_ok());
}

#[test]
fn release_is_idempotent_and_safe_without_acquire() {
    let mut g = LifecycleGuard::new();
    g.release();
    g.release();
    assert!(g.acquire().is_ok());
    g.release();
    g.release();
    assert!(g.acquire().is_ok());
}

use lhl::lazy_lock::{LazyLock, LazyLockState};

#[test]
fn initializes_once() {
    let mut lock = LazyLock::new(|| 41 + 1);
    assert!(LazyLock::state(&lock) == LazyLockState::Uninit);
    assert_eq!(*lock.initialize(), 42);
    assert!(LazyLock::state(&lock) == LazyLockState::Init);
    assert_eq!(*lock.initialize(), 42);
    assert_eq!(*lock.assume_init(), 42);
}

//! The run-once guard that protects boot-time initialization.

use sparkle_memory::once::OnceFlag;

#[test]
fn test_run_once() {
    let mut once = OnceFlag::new();
    assert!(once.begin());
}

#[test]
fn test_run_once_two_funcs() {
    let mut once1 = OnceFlag::new();
    let mut once2 = OnceFlag::new();
    assert!(once1.begin());
    assert!(once2.begin());
}

#[test]
#[should_panic]
fn test_run_twice() {
    let mut once = OnceFlag::new();
    assert!(once.begin());
    assert!(once.begin());
}

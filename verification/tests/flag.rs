use deno_unsync::AtomicFlag;
use deno_unsync::Flag;

#[test]
fn test_raise_lower() {
    let mut flag = Flag::default();
    assert!(!flag.is_raised());
    assert!(flag.raise());
    assert!(flag.is_raised());
    assert!(!flag.raise());
    assert!(flag.is_raised());
    assert!(flag.lower());
    assert!(!flag.is_raised());
    assert!(!flag.lower());
    assert!(!flag.is_raised());
}

#[test]
fn atomic_flag_raises_lowers() {
    let flag = AtomicFlag::default();
    assert!(!flag.is_raised()); // false by default
    assert!(flag.raise());
    assert!(flag.is_raised());
    assert!(!flag.raise());
    assert!(flag.is_raised());
    assert!(flag.lower());
    assert!(flag.raise());
    assert!(flag.lower());
    assert!(!flag.lower());
    let flag = AtomicFlag::raised();
    assert!(flag.is_raised());
    assert!(flag.lower());
}

#[test]
fn flag_raised_starts_raised() {
    let mut flag = Flag::raised();
    assert!(flag.is_raised());
    assert!(!flag.raise());
    assert!(flag.lower());
    assert!(!flag.is_raised());
}

#[test]
fn atomic_flag_is_shared_between_threads_by_reference() {
    let flag = AtomicFlag::default();
    let shared = &flag;
    assert!(shared.raise());
    assert!(flag.is_raised());
    assert!(!shared.raise());
}

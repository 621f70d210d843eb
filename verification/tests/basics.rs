//! The smallest things.
use zchan::positive_update;

#[test]
fn it_works() {
    assert_eq!(2 + 2, 4);
}

#[test]
fn positive_update_counts_down_to_zero() {
    let mut a: usize = 2;
    assert!(positive_update(&mut a));
    assert!(positive_update(&mut a));
    assert_eq!(a, 0);
    assert!(!positive_update(&mut a));
    assert_eq!(a, 0);
}

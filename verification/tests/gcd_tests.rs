use mandelbrot::gcd::{gcd, test_overflow, test_plus_overflow};

#[test]
fn test_gcd() {
    assert_eq!(gcd(14, 15), 1)
}

#[test]
fn gcd_chain_of_three() {
    let d = gcd(gcd(799459, 28823), 27347);
    assert_eq!(d, 41);
}

#[test]
fn gcd_divides_both() {
    let d = gcd(2 * 3 * 5 * 7, 3 * 5 * 11);
    assert_eq!(d, 15);
    assert_eq!((2 * 3 * 5 * 7) % d, 0);
    assert_eq!((3 * 5 * 11) % d, 0);
}

#[test]
fn gcd_of_equal_values() {
    assert_eq!(gcd(42, 42), 42);
}

#[test]
fn gcd_with_one() {
    assert_eq!(gcd(1, u64::MAX), 1);
}

#[test]
fn checked_add_past_max_is_none() {
    assert_eq!(test_overflow(), None);
}

#[test]
fn checked_sum_in_range() {
    assert_eq!(test_plus_overflow(3, 4), 7);
    assert_eq!(test_plus_overflow(u32::MAX - 1, 1), u32::MAX);
}

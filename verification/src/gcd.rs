//! Greatest common divisor by Euclid's algorithm, with a full divisibility
//! contract, and two small checked-arithmetic helpers.

use vstd::prelude::*;

verus! {

/// `d` divides `a`: `a` leaves no remainder when divided by `d`.
pub open spec fn divides(d: int, a: int) -> bool
    recommends
        d > 0,
{
    a % d == 0
}

/// `d` is a divisor of both `a` and `b`.
pub open spec fn common_divisor(d: int, a: int, b: int) -> bool {
    divides(d, a) && divides(d, b)
}

/// When `d` divides `a`, reducing `b` modulo `a` neither creates nor
/// destroys divisibility by `d`.
proof fn lemma_mod_keeps_divisor(d: int, a: int, b: int)
    requires
        d > 0,
        a > 0,
        b >= 0,
        divides(d, a),
    ensures
        divides(d, b) <==> divides(d, b % a),
{
    let q = b / a;
    let r = b % a;
    let k = a / d;
    vstd::arithmetic::div_mod::lemma_fundamental_div_mod(a, d);
    vstd::arithmetic::div_mod::lemma_fundamental_div_mod(b, a);
    assert(b == d * (k * q) + r) by (nonlinear_arith)
        requires
            a == d * k,
            b == a * q + r,
    ;
    vstd::arithmetic::div_mod::lemma_mod_multiples_vanish(k * q, r, d);
}

/// The greatest common divisor of two non-zero numbers: the result divides
/// both inputs, and every common divisor of the inputs divides the result.
pub fn gcd(n: u64, m: u64) -> (r: u64)
    requires
        n != 0,
        m != 0,
    ensures
        r != 0,
        divides(r as int, n as int),
        divides(r as int, m as int),
        forall|d: int|
            1 <= d && common_divisor(d, n as int, m as int) ==> divides(d, r as int),
{
    let mut a: u64 = n;
    let mut b: u64 = m;
    while b != 0
        invariant
            a > 0,
            forall|d: int|
                1 <= d ==> ((#[trigger] common_divisor(d, a as int, b as int))
                    <==> common_divisor(d, n as int, m as int)),
        decreases a + b,
    {
        let ghost a0: int = a as int;
        let ghost b0: int = b as int;
        if b < a {
            let t: u64 = b;
            b = a;
            a = t;
        }
        proof {
            assert forall|d: int| 1 <= d implies ((#[trigger] common_divisor(
                d,
                a as int,
                (b as int) % (a as int),
            )) <==> common_divisor(d, a0, b0)) by {
                assert(common_divisor(d, a as int, b as int) <==> common_divisor(d, a0, b0));
                if divides(d, a as int) {
                    lemma_mod_keeps_divisor(d, a as int, b as int);
                }
            }
        }
        b = b % a;
    }
    proof {
        assert(a as int % a as int == 0) by (nonlinear_arith)
            requires
                a > 0,
        ;
        assert(0int % (a as int) == 0) by (nonlinear_arith)
            requires
                a > 0,
        ;
        assert(common_divisor(a as int, a as int, 0));
        assert forall|d: int|
            1 <= d && common_divisor(d, n as int, m as int) implies divides(d, a as int) by {
            assert(0int % d == 0) by (nonlinear_arith)
                requires
                    1 <= d,
            ;
            assert(common_divisor(d, a as int, 0) <==> common_divisor(d, n as int, m as int));
        }
    }
    a
}

/// Adding one to the largest `u32` would overflow, so the checked sum
/// reports no value.
pub fn test_overflow() -> (r: Option<u32>)
    ensures
        r is None,
{
    u32::MAX.checked_add(1)
}

/// The sum of two `u32` values, defined exactly on the inputs whose sum
/// stays within the type.
pub fn test_plus_overflow(m: u32, n: u32) -> (r: u32)
    requires
        m + n <= u32::MAX,
    ensures
        r == m + n,
{
    m + n
}

} // verus!

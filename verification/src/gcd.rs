//! Four greatest-common-divisor algorithms over `u32` operands, each proved
//! against the mathematical definition `gcd`, together with the number-theory
//! lemmas that ground that definition.

use vstd::prelude::*;
use vstd::arithmetic::div_mod::lemma_add_mod_noop;
use vstd::arithmetic::div_mod::lemma_fundamental_div_mod;
use vstd::arithmetic::div_mod::lemma_fundamental_div_mod_converse;
use vstd::arithmetic::div_mod::lemma_mod_multiples_basic;
use vstd::arithmetic::div_mod::lemma_mod_self_0;
use vstd::arithmetic::div_mod::lemma_small_mod;
use vstd::arithmetic::mul::lemma_mul_is_associative;
use vstd::arithmetic::mul::lemma_mul_is_commutative;

verus! {

/// `d` divides `n` exactly.
pub open spec fn divides(d: int, n: int) -> bool
    recommends
        d >= 1,
{
    n % d == 0
}

/// The greatest common divisor, by the classic recurrence:
/// `gcd(a, 0) == a` and `gcd(a, b) == gcd(b, a % b)` for `b > 0`.
pub open spec fn gcd(a: nat, b: nat) -> nat
    decreases b,
{
    if b == 0 {
        a
    } else {
        gcd(b, a % b)
    }
}

/// A positive divisor of a positive number is no larger than that number.
pub proof fn lemma_divisor_le(d: int, n: int)
    requires
        1 <= d,
        1 <= n,
        divides(d, n),
    ensures
        d <= n,
{
    if n < d {
        lemma_small_mod(n as nat, d as nat);
    }
}

/// A common divisor of two numbers divides their sum.
proof fn lemma_divides_sum(d: int, x: int, y: int)
    requires
        d >= 1,
        divides(d, x),
        divides(d, y),
    ensures
        divides(d, x + y),
{
    lemma_add_mod_noop(x, y, d);
    lemma_small_mod(0, d as nat);
}

/// A divisor of `x` divides any multiple of `x`.
proof fn lemma_divides_mul(d: int, k: int, x: int)
    requires
        d >= 1,
        x % d == 0,
    ensures
        (k * x) % d == 0,
{
    let m = x / d;
    lemma_fundamental_div_mod(x, d);
    assert(x == d * m);
    lemma_mul_is_commutative(d, m);
    lemma_mul_is_associative(k, m, d);
    assert(k * x == (k * m) * d);
    lemma_mod_multiples_basic(k * m, d);
}

/// A common divisor of two numbers divides their difference.
proof fn lemma_divides_diff(d: int, x: int, y: int)
    requires
        d >= 1,
        x % d == 0,
        y % d == 0,
    ensures
        (x - y) % d == 0,
{
    lemma_divides_mul(d, -1, y);
    assert((-1) * y == -y);
    lemma_divides_sum(d, x, -y);
}

/// One step of Euclid's recurrence keeps the set of common divisors:
/// `d` divides `a` and `b` exactly when it divides `b` and `a % b`.
proof fn lemma_common_divisor_step(d: int, a: int, b: int)
    requires
        d >= 1,
        a >= 0,
        b >= 1,
    ensures
        (divides(d, a) && divides(d, b)) <==> (divides(d, b) && divides(d, a % b)),
{
    let q = a / b;
    let r = a % b;
    lemma_fundamental_div_mod(a, b);
    if divides(d, b) {
        lemma_divides_mul(d, q, b);
        if divides(d, a) {
            lemma_divides_diff(d, a, q * b);
            assert(a - q * b == r);
        }
        if divides(d, r) {
            lemma_divides_sum(d, q * b, r);
            assert(q * b + r == a);
        }
    }
}

/// `gcd(a, b)` is positive when either argument is, and divides both.
pub proof fn lemma_gcd_divides(a: nat, b: nat)
    requires
        a >= 1 || b >= 1,
    ensures
        gcd(a, b) >= 1,
        divides(gcd(a, b) as int, a as int),
        divides(gcd(a, b) as int, b as int),
    decreases b,
{
    if b == 0 {
        lemma_mod_self_0(a as int);
        lemma_small_mod(0, a);
    } else {
        lemma_gcd_divides(b, a % b);
        lemma_common_divisor_step(gcd(b, a % b) as int, a as int, b as int);
    }
}

/// Any common divisor of `a` and `b` divides `gcd(a, b)`, and so is at most
/// `gcd(a, b)`: the recurrence really does compute the greatest one.
pub proof fn lemma_gcd_greatest(a: nat, b: nat, d: nat)
    requires
        d >= 1,
        a >= 1 || b >= 1,
        divides(d as int, a as int),
        divides(d as int, b as int),
    ensures
        divides(d as int, gcd(a, b) as int),
        d <= gcd(a, b),
    decreases b,
{
    if b == 0 {
        lemma_divisor_le(d as int, a as int);
    } else {
        lemma_common_divisor_step(d as int, a as int, b as int);
        lemma_gcd_greatest(b, a % b, d);
    }
}

/// The greatest common divisor does not depend on the order of its arguments.
pub proof fn lemma_gcd_symmetric(a: nat, b: nat)
    ensures
        gcd(a, b) == gcd(b, a),
{
    if a < b {
        lemma_small_mod(a, b);
        assert(gcd(a, b) == gcd(b, a % b));
    } else if b < a {
        lemma_small_mod(b, a);
        assert(gcd(b, a) == gcd(a, b % a));
    }
}

/// `gcd(a, a) == a` for every positive `a`.
pub proof fn lemma_gcd_self(a: nat)
    requires
        a >= 1,
    ensures
        gcd(a, a) == a,
{
    lemma_mod_self_0(a as int);
    assert(gcd(a, a) == gcd(a, 0));
}

/// The largest candidate in `1 .. bound` that divides both `a` and `b`
/// exactly, or 0 where no candidate in that range does.
pub open spec fn largest_common_divisor_below(a: int, b: int, bound: int) -> int
    decreases bound,
{
    if bound <= 1 {
        0
    } else if a % (bound - 1) == 0 && b % (bound - 1) == 0 {
        bound - 1
    } else {
        largest_common_divisor_below(a, b, bound - 1)
    }
}

/// What the upward scan of the first brute-force algorithm returns: the
/// largest common divisor of the two operands that lies strictly below the
/// smaller operand, or 0 when the scan range `1 .. min` holds no candidate.
/// In particular the smaller operand itself is never a candidate, so the
/// result falls short of the true greatest common divisor exactly when the
/// smaller operand divides the larger.
pub open spec fn bruteforce_v1_spec(lhs: int, rhs: int) -> int {
    let hi = if lhs >= rhs { lhs } else { rhs };
    let lo = if lhs >= rhs { rhs } else { lhs };
    largest_common_divisor_below(hi, lo, lo)
}

/// The scan's result is a common divisor below the bound, maximal among the
/// candidates of the range, and 0 only where every candidate fails.
proof fn lemma_scan_characterization(a: int, b: int, bound: int)
    requires
        a >= 1,
        b >= 1,
        bound >= 0,
    ensures
        0 <= largest_common_divisor_below(a, b, bound),
        largest_common_divisor_below(a, b, bound) != 0 ==> {
            let r = largest_common_divisor_below(a, b, bound);
            1 <= r < bound && divides(r, a) && divides(r, b)
        },
        forall|i: int|
            largest_common_divisor_below(a, b, bound) < i < bound ==> !(#[trigger] divides(i, a)
                && divides(i, b)),
    decreases bound,
{
    if bound > 1 {
        lemma_scan_characterization(a, b, bound - 1);
    }
}

/// When one operand is 1 (or smaller), the first brute-force algorithm's
/// scan range is empty and it returns 0 rather than the true gcd.
pub proof fn lemma_v1_degenerate(lhs: int, rhs: int)
    requires
        lhs <= 1 || rhs <= 1,
    ensures
        bruteforce_v1_spec(lhs, rhs) == 0,
{
}

/// The first brute-force algorithm does not depend on the order of its
/// arguments either: both orders scan the same range over the same pair.
pub proof fn lemma_v1_symmetric(lhs: int, rhs: int)
    ensures
        bruteforce_v1_spec(lhs, rhs) == bruteforce_v1_spec(rhs, lhs),
{
}

/// Wherever the true gcd lies strictly below both operands, the first
/// brute-force algorithm finds exactly it; its quirk is confined to the
/// inputs where the smaller operand divides the larger.
pub proof fn lemma_v1_matches_gcd(lhs: nat, rhs: nat)
    requires
        lhs >= 1,
        rhs >= 1,
        gcd(lhs, rhs) < lhs,
        gcd(lhs, rhs) < rhs,
    ensures
        bruteforce_v1_spec(lhs as int, rhs as int) == gcd(lhs, rhs),
{
    let hi: nat = if lhs >= rhs { lhs } else { rhs };
    let lo: nat = if lhs >= rhs { rhs } else { lhs };
    let g = gcd(lhs, rhs);
    lemma_gcd_divides(lhs, rhs);
    lemma_gcd_symmetric(lhs, rhs);
    lemma_scan_characterization(hi as int, lo as int, lo as int);
    let r = largest_common_divisor_below(hi as int, lo as int, lo as int);
    // The true gcd is a candidate of the range, so the scan cannot stop short
    // of it: the maximality clause forces g <= r.
    assert(divides(g as int, hi as int) && divides(g as int, lo as int));
    assert(!(g < r || r < g)) by {
        if r < g {
            assert(r < g < lo);
        }
        if g < r {
            lemma_gcd_greatest(hi, lo, r as nat);
        }
    }
}

/// Returns the whole-number part of `a` divided by `b`.
fn integer_part(a: u32, b: u32) -> (r: u32)
    requires
        b >= 1,
    ensures
        r == a as int / b as int,
{
    a / b
}

/// Calculates the greatest common divisor of two whole numbers by scanning
/// every candidate from 1 up to (but not including) the smaller operand and
/// keeping the largest one that divides both sides. The scan range excludes
/// the smaller operand itself, so the result is 0 when that operand is 1 (or
/// 0), and falls short of the true gcd when the smaller operand divides the
/// larger; `bruteforce_v1_spec` states both quirks exactly.
pub fn bruteforce_v1_gcd(lhs: u32, rhs: u32) -> (r: u32)
    ensures
        r == bruteforce_v1_spec(lhs as int, rhs as int),
{
    let mut g: u32 = 0;
    let mut a = lhs;
    let mut b = rhs;
    if a < b {
        // Swap the sides so that the left hand side is the larger one
        let t = a;
        a = b;
        b = t;
    }

    // Checks each candidate from 1 up to the smaller side (nothing larger
    // can divide it), remembering the largest divisor common to both
    let mut i: u32 = 1;
    while i < b
        invariant
            1 <= i,
            b >= 1 ==> i <= b,
            b == 0 ==> i == 1,
            g == largest_common_divisor_below(a as int, b as int, i as int),
        decreases b - i,
    {
        if a % i == 0 && b % i == 0 {
            g = i;
        }
        i += 1;
    }
    assert(g == largest_common_divisor_below(a as int, b as int, b as int)) by {
        if b == 0 {
            assert(largest_common_divisor_below(a as int, b as int, 0) == 0);
            assert(largest_common_divisor_below(a as int, b as int, 1) == 0);
        }
    }
    g
}

/// Calculates the greatest common divisor of two whole numbers with Euclid's
/// algorithm: repeatedly replace the pair by the divisor and the remainder
/// until the remainder vanishes.
pub fn euclid_gcd(lhs: u32, rhs: u32) -> (r: u32)
    requires
        lhs >= 1,
        rhs >= 1,
    ensures
        r == gcd(lhs as nat, rhs as nat),
{
    let mut remainder: u32 = 1;
    let mut a = lhs;
    let mut b = rhs;

    if a < b {
        // Swap the sides so that the left hand side is the larger one
        let t = a;
        a = b;
        b = t;
    }
    proof {
        lemma_gcd_symmetric(lhs as nat, rhs as nat);
    }

    while 0 != remainder
        invariant
            a >= 1,
            remainder != 0 ==> b >= 1,
            remainder == 0 ==> b == 0,
            gcd(a as nat, b as nat) == gcd(lhs as nat, rhs as nat),
        decreases b,
    {
        let quotient = integer_part(a, b);
        proof {
            lemma_fundamental_div_mod(a as int, b as int);
        }
        remainder = a - quotient * b;
        assert(remainder == a as int % b as int);
        a = b;
        b = remainder;
    }
    assert(gcd(a as nat, 0) == a as nat);
    a
}

/// Calculates the greatest common divisor of two whole numbers with a variant
/// of Euclid's algorithm that avoids the division for quotients of 1, 2 or 3
/// by repeated subtraction, falling back to the quotient formula otherwise.
pub fn euclid_v2_gcd(lhs: u32, rhs: u32) -> (r: u32)
    requires
        lhs >= 1,
        rhs >= 1,
    ensures
        r == gcd(lhs as nat, rhs as nat),
{
    let mut remainder: u32 = 1;
    let mut a = lhs;
    let mut b = rhs;

    if a < b {
        // Swap the sides so that the left hand side is the larger one
        let t = a;
        a = b;
        b = t;
    }
    proof {
        lemma_gcd_symmetric(lhs as nat, rhs as nat);
    }

    // Checks for the most common quotients (1-3) by subtraction first, and
    // only then falls back to the division of the original algorithm
    while 0 != remainder
        invariant
            a >= 1,
            remainder != 0 ==> 1 <= b <= a,
            remainder == 0 ==> b == 0,
            gcd(a as nat, b as nat) == gcd(lhs as nat, rhs as nat),
        decreases b,
    {
        remainder = a - b;
        if remainder >= b {
            remainder -= b;
            if remainder >= b {
                remainder -= b;
                if remainder >= b {
                    let quotient = integer_part(a, b);
                    proof {
                        lemma_fundamental_div_mod(a as int, b as int);
                    }
                    remainder = a - b * quotient;
                } else {
                    proof {
                        lemma_fundamental_div_mod_converse(
                            a as int,
                            b as int,
                            3,
                            a as int - 3 * b as int,
                        );
                    }
                }
            } else {
                proof {
                    lemma_fundamental_div_mod_converse(
                        a as int,
                        b as int,
                        2,
                        a as int - 2 * b as int,
                    );
                }
            }
        } else {
            proof {
                lemma_fundamental_div_mod_converse(a as int, b as int, 1, a as int - b as int);
            }
        }
        assert(remainder == a as int % b as int);
        a = b;
        b = remainder;
    }
    assert(gcd(a as nat, 0) == a as nat);
    a
}

/// Calculates the greatest common divisor of two whole numbers by scanning
/// candidates downward from the original right-hand operand until one divides
/// both sides; the first hit from the top is the greatest common divisor.
pub fn bruteforce_v2_gcd(lhs: u32, rhs: u32) -> (r: u32)
    requires
        lhs >= 1,
        rhs >= 1,
    ensures
        r == gcd(lhs as nat, rhs as nat),
{
    let g;
    let mut a = lhs;
    let mut b = rhs;
    if a < b {
        // Swap the sides so that the left hand side is the larger one
        let t = a;
        a = b;
        b = t;
    }
    proof {
        lemma_gcd_symmetric(lhs as nat, rhs as nat);
        lemma_gcd_divides(lhs as nat, rhs as nat);
        lemma_divisor_le(gcd(lhs as nat, rhs as nat) as int, rhs as int);
    }

    // The scan starts from the original right-hand operand, not the swapped
    // smaller side, and counts downwards until a common divisor appears
    let mut i = rhs;
    while !(a % i == 0 && b % i == 0)
        invariant
            a >= 1,
            b >= 1,
            gcd(a as nat, b as nat) == gcd(lhs as nat, rhs as nat),
            1 <= gcd(lhs as nat, rhs as nat) <= i,
            divides(gcd(lhs as nat, rhs as nat) as int, a as int),
            divides(gcd(lhs as nat, rhs as nat) as int, b as int),
        decreases i,
    {
        i -= 1;
    }
    proof {
        lemma_gcd_greatest(a as nat, b as nat, i as nat);
    }
    g = i;
    g
}

/// The closed set of the four strategies. A value only selects which
/// algorithm runs; it carries no state.
#[derive(Clone, Copy, PartialEq, Eq, Structural)]
pub enum AlgorithmKind {
    BruteForceV1,
    BruteForceV2,
    EuclidOriginal,
    EuclidOptimized,
}

/// Runs the selected algorithm on one pair of operands. Every strategy but
/// the first brute-force scan returns the true greatest common divisor; that
/// one returns its quirky scan result, stated by `bruteforce_v1_spec`.
pub fn compute_gcd(kind: AlgorithmKind, lhs: u32, rhs: u32) -> (r: u32)
    requires
        lhs >= 1,
        rhs >= 1,
    ensures
        kind == AlgorithmKind::BruteForceV1 ==> r == bruteforce_v1_spec(lhs as int, rhs as int),
        kind != AlgorithmKind::BruteForceV1 ==> r == gcd(lhs as nat, rhs as nat),
{
    match kind {
        AlgorithmKind::BruteForceV1 => bruteforce_v1_gcd(lhs, rhs),
        AlgorithmKind::BruteForceV2 => bruteforce_v2_gcd(lhs, rhs),
        AlgorithmKind::EuclidOriginal => euclid_gcd(lhs, rhs),
        AlgorithmKind::EuclidOptimized => euclid_v2_gcd(lhs, rhs),
    }
}

} // verus!

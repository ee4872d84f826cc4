//! Divisibility and greatest common divisors of mathematical integers.

use vstd::arithmetic::div_mod::lemma_add_mod_noop;
use vstd::arithmetic::div_mod::lemma_fundamental_div_mod;
use vstd::arithmetic::div_mod::lemma_mod_multiples_basic;
use vstd::arithmetic::div_mod::lemma_mul_mod_noop_right;
use vstd::arithmetic::div_mod::lemma_small_mod;
use vstd::arithmetic::mul::lemma_mul_is_commutative;
use vstd::prelude::*;

verus! {

/// `d` divides `n`. Zero divides only zero.
pub open spec fn divides(d: int, n: int) -> bool {
    if d == 0 {
        n == 0
    } else {
        n % d == 0
    }
}

/// `g` is the greatest common divisor of `a` and `b`: it is not negative, it
/// divides both, and every positive divisor of both divides it. The greatest
/// common divisor of zero and zero is zero.
pub open spec fn is_gcd(g: int, a: int, b: int) -> bool {
    &&& g >= 0
    &&& divides(g, a)
    &&& divides(g, b)
    &&& forall|d: int| d > 0 && divides(d, a) && divides(d, b) ==> #[trigger] divides(d, g)
}

/// The greatest common divisor of two natural numbers, by Euclid's
/// recurrence.
pub open spec fn gcd_of(a: nat, b: nat) -> nat
    decreases b,
{
    if b == 0 {
        a
    } else {
        gcd_of(b, a % b)
    }
}

/// The size of `v`, whatever its sign.
pub open spec fn abs(v: int) -> nat {
    if v < 0 {
        (-v) as nat
    } else {
        v as nat
    }
}

/// A divisor of two numbers divides every combination `x * a + y * b` of
/// them.
pub proof fn lemma_divides_combination(d: int, a: int, b: int, x: int, y: int)
    requires
        d > 0,
        divides(d, a),
        divides(d, b),
    ensures
        divides(d, x * a + y * b),
{
    assert((x * a) % d == 0) by {
        lemma_mul_mod_noop_right(x, a, d);
        assert(x * (a % d) == 0) by (nonlinear_arith)
            requires
                a % d == 0,
        ;
    }
    assert((y * b) % d == 0) by {
        lemma_mul_mod_noop_right(y, b, d);
        assert(y * (b % d) == 0) by (nonlinear_arith)
            requires
                b % d == 0,
        ;
    }
    lemma_add_mod_noop(x * a, y * b, d);
    lemma_small_mod(0, d as nat);
}

/// A number that `d` divides is a multiple of `d`.
pub proof fn lemma_divides_multiple(d: int, n: int)
    requires
        d > 0,
        divides(d, n),
    ensures
        n == (n / d) * d,
{
    lemma_fundamental_div_mod(n, d);
    lemma_mul_is_commutative(d, n / d);
}

/// Bezout's identity: the greatest common divisor is a combination
/// `x * a + y * b` of the two numbers. Returns such `x` and `y`.
pub proof fn lemma_bezout(a: nat, b: nat) -> (c: (int, int))
    ensures
        c.0 * a + c.1 * b == gcd_of(a, b),
    decreases b,
{
    if b == 0 {
        assert(1 * a + 0 * b == a);
        (1, 0)
    } else {
        let r = a % b;
        let q = a / b;
        let (x, y) = lemma_bezout(b, r);
        lemma_fundamental_div_mod(a as int, b as int);
        assert(y * a + (x - y * q) * b == x * b + y * r) by (nonlinear_arith)
            requires
                a == b * q + r,
        ;
        (y, x - y * q)
    }
}

/// Euclid's recurrence gives a divisor of both numbers.
pub proof fn lemma_gcd_of_divides(a: nat, b: nat)
    ensures
        divides(gcd_of(a, b) as int, a as int),
        divides(gcd_of(a, b) as int, b as int),
    decreases b,
{
    let g = gcd_of(a, b) as int;
    if b == 0 {
        if a > 0 {
            lemma_mod_multiples_basic(1, a as int);
        }
    } else {
        let r = a % b;
        let q = a / b;
        lemma_gcd_of_divides(b, r);
        lemma_gcd_of_positive(b, r);
        lemma_fundamental_div_mod(a as int, b as int);
        lemma_divides_combination(g, b as int, r as int, q as int, 1);
        assert(q * b + 1 * r == a) by (nonlinear_arith)
            requires
                a == b * q + r,
        ;
    }
}

/// The greatest common divisor is zero only of zero and zero.
pub proof fn lemma_gcd_of_positive(a: nat, b: nat)
    requires
        a > 0 || b > 0,
    ensures
        gcd_of(a, b) > 0,
    decreases b,
{
    if b != 0 {
        lemma_gcd_of_positive(b, a % b);
    }
}

/// The greatest common divisor is no larger than either number, unless that
/// number is zero.
pub proof fn lemma_gcd_of_bound(a: nat, b: nat)
    ensures
        a > 0 ==> gcd_of(a, b) <= a,
        b > 0 ==> gcd_of(a, b) <= b,
        a == 0 && b == 0 ==> gcd_of(a, b) == 0,
{
    let g = gcd_of(a, b) as int;
    lemma_gcd_of_divides(a, b);
    if a > 0 || b > 0 {
        lemma_gcd_of_positive(a, b);
        if a > 0 {
            lemma_divides_multiple(g, a as int);
            let times = a as int / g;
            assert(g <= a) by (nonlinear_arith)
                requires
                    a == times * g,
                    a > 0,
                    g > 0,
            ;
        }
        if b > 0 {
            lemma_divides_multiple(g, b as int);
            let times = b as int / g;
            assert(g <= b) by (nonlinear_arith)
                requires
                    b == times * g,
                    b > 0,
                    g > 0,
            ;
        }
    }
}

/// Euclid's recurrence gives the greatest common divisor.
pub proof fn lemma_gcd_of_is_gcd(a: nat, b: nat)
    ensures
        is_gcd(gcd_of(a, b) as int, a as int, b as int),
{
    let g = gcd_of(a, b) as int;
    lemma_gcd_of_divides(a, b);
    let (x, y) = lemma_bezout(a, b);
    assert forall|d: int| d > 0 && divides(d, a as int) && divides(d, b as int) implies divides(
        d,
        g,
    ) by {
        lemma_divides_combination(d, a as int, b as int, x, y);
    }
}

/// Two numbers have one greatest common divisor.
pub proof fn lemma_gcd_unique(g: int, h: int, a: int, b: int)
    requires
        is_gcd(g, a, b),
        is_gcd(h, a, b),
    ensures
        g == h,
{
    if g == 0 || h == 0 {
        // Then `a` and `b` are zero, and every positive number divides both.
        let big = g + h + 1;
        assert(divides(big, a) && divides(big, b)) by {
            assert(a == 0 && b == 0);
        }
        assert(divides(big, g) && divides(big, h));
        lemma_small_mod(g as nat, big as nat);
        lemma_small_mod(h as nat, big as nat);
    } else {
        assert(divides(g, h) && divides(h, g));
        lemma_divides_multiple(g, h);
        lemma_divides_multiple(h, g);
        let p = h / g;
        let q = g / h;
        assert(g == h) by (nonlinear_arith)
            requires
                g > 0,
                h > 0,
                h == p * g,
                g == q * h,
        ;
    }
}

/// The greatest common divisor does not depend on the order of the two
/// numbers.
pub proof fn lemma_gcd_of_symmetric(a: nat, b: nat)
    ensures
        gcd_of(a, b) == gcd_of(b, a),
{
    lemma_gcd_of_is_gcd(a, b);
    lemma_gcd_of_is_gcd(b, a);
    lemma_gcd_unique(gcd_of(a, b) as int, gcd_of(b, a) as int, a as int, b as int);
}

} // verus!

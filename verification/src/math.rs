//! Greatest common divisors of numbers of any numeric type.

use crate::divisors::abs;
use crate::divisors::divides;
use crate::divisors::gcd_of;
use crate::divisors::is_gcd;
use crate::divisors::lemma_divides_multiple;
use crate::divisors::lemma_gcd_of_is_gcd;
use crate::divisors::lemma_gcd_of_symmetric;
use std::ops::Rem;
use std::ops::Sub;
use vstd::arithmetic::div_mod::lemma_fundamental_div_mod;
use vstd::arithmetic::div_mod::lemma_fundamental_div_mod_converse;
use vstd::arithmetic::div_mod::lemma_mod_self_0;
use vstd::arithmetic::div_mod::lemma_small_mod;
use vstd::prelude::*;
use vstd::std_specs::cmp::PartialEqSpec;
use vstd::std_specs::cmp::PartialOrdIs;
use vstd::std_specs::cmp::PartialOrdSpec;
use vstd::std_specs::ops::RemSpec;
use vstd::std_specs::ops::SubSpec;

verus! {

/// The remainder that leaves the quotient rounded towards zero: it has the
/// sign of `x`, and its size is the remainder of the sizes.
pub open spec fn truncated_rem(x: int, y: int) -> int {
    if x >= 0 {
        x % y
    } else {
        -((-x) % y)
    }
}

/// A numeric type: its values stand for the integers from `lowest()` to
/// `highest()`, and `==`, `<`, `>`, `%` and `-` compute on them what they
/// compute on the integers, wherever the result can be held.
pub trait Numeric: Copy + PartialEq + PartialOrd + Rem<Output = Self> + Sub<Output = Self> {
    /// The integer that a value stands for.
    spec fn value(self) -> int;

    /// The least integer that the type holds.
    spec fn lowest() -> int;

    /// The greatest integer that the type holds.
    spec fn highest() -> int;

    fn zero() -> (z: Self)
        ensures
            z.value() == 0,
    ;

    /// The laws that tie the operators to the integers: every value lies in
    /// the type's range, which holds zero; equality and order are those of
    /// the integers; the remainder is the truncated one, defined unless the
    /// divisor is zero or the quotient overflows; the difference is defined
    /// where it lies in the range.
    proof fn numeric_laws(a: Self, b: Self)
        ensures
            Self::lowest() <= 0 <= Self::highest(),
            Self::lowest() <= a.value() <= Self::highest(),
            Self::obeys_eq_spec(),
            a.eq_spec(&b) <==> a.value() == b.value(),
            Self::obeys_partial_cmp_spec(),
            a.is_lt(&b) <==> a.value() < b.value(),
            a.is_gt(&b) <==> a.value() > b.value(),
            Self::obeys_rem_spec(),
            b.value() != 0 && !(a.value() == Self::lowest() && b.value() == -1) ==> a.rem_req(b)
                && a.rem_spec(b).value() == truncated_rem(a.value(), b.value()),
            Self::obeys_sub_spec(),
            Self::lowest() <= a.value() - b.value() <= Self::highest() ==> a.sub_req(b)
                && a.sub_spec(b).value() == a.value() - b.value(),
    ;
}

/// The size of a truncated remainder is the remainder of the sizes.
proof fn lemma_truncated_rem_size(x: int, y: int)
    requires
        y != 0,
    ensures
        abs(truncated_rem(x, y)) == abs(x) % abs(y),
        x >= 0 ==> truncated_rem(x, y) >= 0,
        x <= 0 ==> truncated_rem(x, y) <= 0,
{
    let size = abs(x) as int;
    let by = abs(y) as int;
    assert(size % y == size % by && 0 <= size % by < by && (size == 0 ==> size % by == 0))
        by (nonlinear_arith)
        requires
            size >= 0,
            y != 0,
            by == if y < 0 {
                -y
            } else {
                y
            },
    ;
}

/// Where Euclid's algorithm can take the remainder of a pair, it can take
/// the remainder of the next pair too.
proof fn lemma_next_remainder_defined(x: int, y: int, lowest: int)
    requires
        lowest <= x,
        lowest <= y,
        lowest <= 0,
        y != 0,
        !(x == lowest && y == -1),
        !(x == -1 && y == lowest),
    ensures
        !(y == lowest && truncated_rem(x, y) == -1),
        !(y == -1 && truncated_rem(x, y) == lowest),
{
    let r = truncated_rem(x, y);
    lemma_truncated_rem_size(x, y);
    if y == lowest && r == -1 {
        let size = abs(x) as int;
        let by = abs(y) as int;
        if size < by {
            lemma_small_mod(size as nat, by as nat);
        } else {
            lemma_mod_self_0(by);
        }
    }
}

/// The greatest common divisor of the sizes of two integers is the greatest
/// common divisor of the integers.
pub proof fn lemma_gcd_of_sizes(a: int, b: int)
    ensures
        is_gcd(gcd_of(abs(a), abs(b)) as int, a, b),
{
    let g = gcd_of(abs(a), abs(b)) as int;
    lemma_gcd_of_is_gcd(abs(a), abs(b));
    lemma_divides_size(g, a);
    lemma_divides_size(g, b);
    assert forall|d: int| d > 0 && divides(d, a) && divides(d, b) implies divides(d, g) by {
        lemma_divides_size(d, a);
        lemma_divides_size(d, b);
    }
}

/// The greatest common divisor does not depend on the order of the two
/// numbers, nor does it matter which of them is zero.
pub proof fn lemma_gcd_commutes(a: int, b: int)
    ensures
        gcd_of(abs(a), abs(b)) == gcd_of(abs(b), abs(a)),
{
    lemma_gcd_of_symmetric(abs(a), abs(b));
}

/// A number divides an integer where it divides the integer's size.
proof fn lemma_divides_size(d: int, v: int)
    requires
        d >= 0,
    ensures
        divides(d, v) <==> divides(d, abs(v) as int),
{
    if d > 0 && v < 0 {
        if v % d == 0 {
            lemma_multiple_negated(d, v);
        }
        if (-v) % d == 0 {
            lemma_multiple_negated(d, -v);
        }
    }
}

/// The negation of a multiple of `d` is a multiple of `d`.
proof fn lemma_multiple_negated(d: int, v: int)
    requires
        d > 0,
        v % d == 0,
    ensures
        (-v) % d == 0,
{
    let times = v / d;
    lemma_fundamental_div_mod(v, d);
    assert(-v == (-times) * d + 0) by (nonlinear_arith)
        requires
            v == d * times,
    ;
    lemma_fundamental_div_mod_converse(-v, d, -times, 0);
}

/// A divisor of a number other than zero is no larger than the number's
/// size.
proof fn lemma_divisor_bound(d: int, v: int)
    requires
        d >= 0,
        divides(d, v),
        v != 0,
    ensures
        d <= abs(v),
{
    lemma_divides_size(d, v);
    lemma_divides_multiple(d, abs(v) as int);
    let size = abs(v) as int;
    let times = size / d;
    assert(d <= size) by (nonlinear_arith)
        requires
            size == times * d,
            size > 0,
            d > 0,
    ;
}

/// The pairs on which Euclid's algorithm takes no remainder that overflows:
/// all but the lowest value of the type beside minus one.
pub open spec fn remainders_defined<T: Numeric>(a: T, b: T) -> bool {
    &&& !(a.value() == T::lowest() && b.value() == -1)
    &&& !(a.value() == -1 && b.value() == T::lowest())
}

/// Calculates the GCD of 2 numbers. (Euclidean algorithm)
///
/// The result is never negative, whatever the signs of `a` and `b`.
///
/// # Failures
/// If both a and b are 0, the function fails.
pub fn gcd<'a, T: Numeric>(a: T, b: T) -> (result: Result<T, &'a str>)
    requires
        remainders_defined(a, b),
        a.value() < 0 || b.value() < 0 ==> gcd_of(abs(a.value()), abs(b.value())) <= T::highest(),
    ensures
        result is Err <==> a.value() == 0 && b.value() == 0,
        result matches Err(message) ==> message@ == "values cannot be 0"@,
        result matches Ok(g) ==> g.value() == gcd_of(abs(a.value()), abs(b.value())) && is_gcd(
            g.value(),
            a.value(),
            b.value(),
        ),
{
    let zero: T = T::zero();
    proof {
        T::numeric_laws(a, zero);
        T::numeric_laws(b, zero);
        lemma_gcd_of_sizes(a.value(), b.value());
    }
    if a == zero && b == zero {
        return Err("values cannot be 0");
    }
    let x = gcd_loop(a, b);
    let ghost g = gcd_of(abs(a.value()), abs(b.value())) as int;

    return if a < zero || b < zero {
        proof {
            T::numeric_laws(zero, x);
            T::numeric_laws(x, zero);
            if a.value() < 0 {
                lemma_divisor_bound(g, a.value());
            } else {
                lemma_divisor_bound(g, b.value());
            }
        }
        let neg_x = zero - x;
        proof {
            T::numeric_laws(x, neg_x);
        }
        Ok(max(x, neg_x))
    } else {
        Ok(x)
    };
}

/// Euclid's algorithm on `x` and `y`. The result has the size of their
/// greatest common divisor; its sign is that of the last divisor.
fn gcd_loop<T: Numeric>(x: T, y: T) -> (last: T)
    requires
        remainders_defined(x, y),
    ensures
        abs(last.value()) == gcd_of(abs(x.value()), abs(y.value())),
        x.value() >= 0 && y.value() >= 0 ==> last.value() >= 0,
{
    let ghost first = x;
    let ghost second = y;
    let mut x = x;
    let mut y = y;
    let zero = T::zero();
    while y != zero
        invariant
            zero.value() == 0,
            remainders_defined(x, y),
            gcd_of(abs(x.value()), abs(y.value())) == gcd_of(
                abs(first.value()),
                abs(second.value()),
            ),
            first.value() >= 0 && second.value() >= 0 ==> x.value() >= 0 && y.value() >= 0,
        decreases abs(y.value()),
    {
        let t = y;
        proof {
            T::numeric_laws(y, zero);
            T::numeric_laws(x, y);
            lemma_truncated_rem_size(x.value(), y.value());
            lemma_next_remainder_defined(x.value(), y.value(), T::lowest());
        }

        y = x % y;
        x = t;
    }
    proof {
        T::numeric_laws(y, zero);
    }

    x
}

/// The larger of `a` and `b`; `b` where neither is larger.
fn max<T: PartialOrd>(a: T, b: T) -> (larger: T)
    ensures
        T::obeys_partial_cmp_spec() ==> larger == if a.is_gt(&b) {
            a
        } else {
            b
        },
{
    return if a > b {
        a
    } else {
        b
    };
}

impl Numeric for i8 {
    open spec fn value(self) -> int {
        self as int
    }

    open spec fn lowest() -> int {
        i8::MIN as int
    }

    open spec fn highest() -> int {
        i8::MAX as int
    }

    fn zero() -> (z: Self) {
        0
    }

    proof fn numeric_laws(a: Self, b: Self) {
    }
}

impl Numeric for i16 {
    open spec fn value(self) -> int {
        self as int
    }

    open spec fn lowest() -> int {
        i16::MIN as int
    }

    open spec fn highest() -> int {
        i16::MAX as int
    }

    fn zero() -> (z: Self) {
        0
    }

    proof fn numeric_laws(a: Self, b: Self) {
    }
}

impl Numeric for i32 {
    open spec fn value(self) -> int {
        self as int
    }

    open spec fn lowest() -> int {
        i32::MIN as int
    }

    open spec fn highest() -> int {
        i32::MAX as int
    }

    fn zero() -> (z: Self) {
        0
    }

    proof fn numeric_laws(a: Self, b: Self) {
    }
}

impl Numeric for i64 {
    open spec fn value(self) -> int {
        self as int
    }

    open spec fn lowest() -> int {
        i64::MIN as int
    }

    open spec fn highest() -> int {
        i64::MAX as int
    }

    fn zero() -> (z: Self) {
        0
    }

    proof fn numeric_laws(a: Self, b: Self) {
    }
}

impl Numeric for i128 {
    open spec fn value(self) -> int {
        self as int
    }

    open spec fn lowest() -> int {
        i128::MIN as int
    }

    open spec fn highest() -> int {
        i128::MAX as int
    }

    fn zero() -> (z: Self) {
        0
    }

    proof fn numeric_laws(a: Self, b: Self) {
    }
}

impl Numeric for u8 {
    open spec fn value(self) -> int {
        self as int
    }

    open spec fn lowest() -> int {
        0
    }

    open spec fn highest() -> int {
        u8::MAX as int
    }

    fn zero() -> (z: Self) {
        0
    }

    proof fn numeric_laws(a: Self, b: Self) {
    }
}

impl Numeric for u16 {
    open spec fn value(self) -> int {
        self as int
    }

    open spec fn lowest() -> int {
        0
    }

    open spec fn highest() -> int {
        u16::MAX as int
    }

    fn zero() -> (z: Self) {
        0
    }

    proof fn numeric_laws(a: Self, b: Self) {
    }
}

impl Numeric for u32 {
    open spec fn value(self) -> int {
        self as int
    }

    open spec fn lowest() -> int {
        0
    }

    open spec fn highest() -> int {
        u32::MAX as int
    }

    fn zero() -> (z: Self) {
        0
    }

    proof fn numeric_laws(a: Self, b: Self) {
    }
}

impl Numeric for u64 {
    open spec fn value(self) -> int {
        self as int
    }

    open spec fn lowest() -> int {
        0
    }

    open spec fn highest() -> int {
        u64::MAX as int
    }

    fn zero() -> (z: Self) {
        0
    }

    proof fn numeric_laws(a: Self, b: Self) {
    }
}

impl Numeric for u128 {
    open spec fn value(self) -> int {
        self as int
    }

    open spec fn lowest() -> int {
        0
    }

    open spec fn highest() -> int {
        u128::MAX as int
    }

    fn zero() -> (z: Self) {
        0
    }

    proof fn numeric_laws(a: Self, b: Self) {
    }
}

} // verus!

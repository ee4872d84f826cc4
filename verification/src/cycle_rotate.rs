//! Left rotation in place along the cycles of the shift: every element moves
//! once, straight to where it belongs.

use crate::divisors::divides;
use crate::divisors::gcd_of;
use crate::divisors::is_gcd;
use crate::divisors::lemma_bezout;
use crate::divisors::lemma_divides_combination;
use crate::divisors::lemma_divides_multiple;
use crate::divisors::lemma_gcd_of_divides;
use crate::divisors::lemma_gcd_of_is_gcd;
use crate::divisors::lemma_gcd_of_positive;
use crate::rotation::rotated;
use vstd::arithmetic::div_mod::lemma_add_mod_noop;
use vstd::arithmetic::div_mod::lemma_add_mod_noop_right;
use vstd::arithmetic::div_mod::lemma_fundamental_div_mod;
use vstd::arithmetic::div_mod::lemma_mod_equivalence;
use vstd::arithmetic::div_mod::lemma_mod_multiples_vanish;
use vstd::arithmetic::div_mod::lemma_mod_bound;
use vstd::arithmetic::div_mod::lemma_small_mod;
use vstd::prelude::*;

verus! {

/// The greatest common divisor of `a` and `b`, by Euclid's algorithm. The
/// greatest common divisor of a number and zero is the number.
pub fn gcd(a: usize, b: usize) -> (g: usize)
    ensures
        g == gcd_of(a as nat, b as nat),
        is_gcd(g as int, a as int, b as int),
    decreases b,
{
    proof {
        lemma_gcd_of_is_gcd(a as nat, b as nat);
    }
    if b == 0 {
        a
    } else {
        gcd(b, a % b)
    }
}

/// The index reached from `from` after `jumps` jumps of `f` places around a
/// ring of `n` places.
spec fn landing(from: int, jumps: int, f: int, n: int) -> int {
    (from + jumps * f) % n
}

/// No jump leaves the start where it is.
proof fn lemma_landing_start(from: int, f: int, n: int)
    requires
        0 <= from < n,
    ensures
        landing(from, 0, f, n) == from,
{
    assert(0 * f == 0);
    lemma_small_mod(from as nat, n as nat);
}

/// One more jump moves `f` places on from the last landing.
proof fn lemma_landing_next(from: int, jumps: int, f: int, n: int)
    requires
        n > 0,
    ensures
        landing(from, jumps + 1, f, n) == (landing(from, jumps, f, n) + f) % n,
        0 <= landing(from, jumps, f, n) < n,
{
    assert(from + (jumps + 1) * f == (from + jumps * f) + f) by (nonlinear_arith);
    lemma_add_mod_noop(from + jumps * f, f, n);
    lemma_add_mod_noop(landing(from, jumps, f, n), f, n);
    lemma_small_mod(landing(from, jumps, f, n) as nat, n as nat);
    lemma_mod_bound(from + jumps * f, n);
}

/// As many jumps as the ring has places lead back to the start.
proof fn lemma_landing_full_round(from: int, f: int, n: int)
    requires
        0 <= from < n,
    ensures
        landing(from, n, f, n) == from,
{
    lemma_mod_multiples_vanish(f, from, n);
    lemma_small_mod(from as nat, n as nat);
}

/// Jumps of a multiple of `g` around a ring of a multiple of `g` places stay
/// in the residue class of the start.
proof fn lemma_landing_residue(from: int, jumps: int, f: int, n: int, g: int)
    requires
        n > 0,
        g > 0,
        divides(g, f),
        divides(g, n),
        0 <= from < g,
    ensures
        landing(from, jumps, f, n) % g == from,
{
    let total = from + jumps * f;
    let rounds = total / n;
    let at = landing(from, jumps, f, n);
    lemma_fundamental_div_mod(total, n);
    lemma_divides_combination(g, f, n, jumps, -rounds);
    let moved = jumps * f + (-rounds) * n;
    assert(at == from + moved) by (nonlinear_arith)
        requires
            total == from + jumps * f,
            total == n * rounds + at,
            moved == jumps * f + (-rounds) * n,
    ;
    lemma_divides_multiple(g, moved);
    lemma_mod_multiples_vanish(moved / g, from, g);
    assert(g * (moved / g) == (moved / g) * g) by (nonlinear_arith);
    lemma_small_mod(from as nat, g as nat);
}

/// Where two numbers of jumps land on the same index, their difference
/// leads back to the start.
proof fn lemma_landing_return(from: int, fewer: int, more: int, f: int, n: int)
    requires
        0 <= from < n,
        landing(from, fewer, f, n) == landing(from, more, f, n),
    ensures
        landing(from, more - fewer, f, n) == from,
{
    let a = from + more * f;
    let b = from + fewer * f;
    let c = from + (more - fewer) * f;
    lemma_mod_equivalence(a, b, n);
    assert(a - b == c - from) by (nonlinear_arith)
        requires
            a == from + more * f,
            b == from + fewer * f,
            c == from + (more - fewer) * f,
    ;
    lemma_mod_equivalence(c, from, n);
    lemma_small_mod(from as nat, n as nat);
}

/// Where `period` jumps lead back to the start, any number of jumps lands
/// where its remainder by `period` lands.
proof fn lemma_landing_periodic(from: int, jumps: int, period: int, f: int, n: int)
    requires
        0 <= from < n,
        period > 0,
        landing(from, period, f, n) == from,
    ensures
        landing(from, jumps, f, n) == landing(from, jumps % period, f, n),
{
    let rounds = jumps / period;
    let rest = jumps % period;
    lemma_fundamental_div_mod(jumps, period);
    // One period moves a multiple of `n` places.
    let lap = period * f;
    lemma_small_mod(from as nat, n as nat);
    lemma_mod_equivalence(from + lap, from, n);
    assert(lap % n == 0);
    lemma_divides_multiple(n, lap);
    let turns = lap / n;
    assert(from + jumps * f == n * (rounds * turns) + (from + rest * f)) by (nonlinear_arith)
        requires
            jumps == period * rounds + rest,
            lap == period * f,
            lap == turns * n,
    ;
    lemma_mod_multiples_vanish(rounds * turns, from + rest * f, n);
}

/// Every index is reached from the start of its residue class modulo the
/// greatest common divisor of the shift and the length. Returns a number of
/// jumps that reaches it.
proof fn lemma_landing_reaches(x: int, f: nat, n: nat) -> (jumps: int)
    requires
        0 <= x < n,
    ensures
        jumps >= 0,
        landing(x % (gcd_of(f, n) as int), jumps, f as int, n as int) == x,
{
    let g = gcd_of(f, n) as int;
    lemma_gcd_of_positive(f, n);
    let from = x % g;
    let blocks = x / g;
    lemma_fundamental_div_mod(x, g);
    let (a, b) = lemma_bezout(f, n);
    let straight = blocks * a;
    let jumps = straight % (n as int);
    lemma_mod_bound(straight, n as int);
    lemma_fundamental_div_mod(straight, n as int);
    let laps = straight / (n as int);
    let turns = -(blocks * b) - laps * f;
    assert(from + jumps * f == n * turns + x) by (nonlinear_arith)
        requires
            x == g * blocks + from,
            a * f + b * n == g,
            straight == blocks * a,
            straight == n * laps + jumps,
            turns == -(blocks * b) - laps * f,
    ;
    lemma_mod_multiples_vanish(turns, x, n as int);
    lemma_small_mod(x as nat, n);
    jumps
}

/// A sequence whose every element came from `places` further on, around the
/// ring, is the left rotation by any factor congruent to `places`.
proof fn lemma_shifted_is_rotated(before: Seq<i32>, after: Seq<i32>, places: int, factor: int)
    requires
        before.len() > 0,
        after.len() == before.len(),
        places == factor % (before.len() as int),
        forall|x: int|
            0 <= x < before.len() ==> after[x] == before[(x + places) % (before.len() as int)],
    ensures
        after == rotated(before, -factor),
{
    reveal(rotated);
    let n = before.len() as int;
    assert forall|x: int| 0 <= x < n implies after[x] == #[trigger] rotated(before, -factor)[x] by {
        lemma_add_mod_noop_right(x, factor, n);
    }
    assert(after =~= rotated(before, -factor));
}

/// Rotates `array` in place by `factor` places to the left. The factor may
/// exceed the length.
///
/// The indices fall into as many cycles as the greatest common divisor of
/// shift and length; along each cycle every element is moved once, to its
/// final place.
pub fn left_rotate(array: &mut [i32], factor: usize)
    ensures
        final(array)@ == rotated(old(array)@, -(factor as int)),
{
    let length = array.len();
    if length < 1 {
        proof {
            reveal(rotated);
            assert(array@ =~= rotated(array@, -(factor as int)));
        }
        return ;
    }
    let f = factor % length;
    let cycles = gcd(f, length);
    let ghost n = length as int;
    let ghost g = cycles as int;
    proof {
        lemma_gcd_of_positive(f as nat, length as nat);
        lemma_gcd_of_divides(f as nat, length as nat);
        lemma_divides_multiple(g, n);
        assert(g <= n) by (nonlinear_arith)
            requires
                n == (n / g) * g,
                n > 0,
                g > 0,
        ;
    }
    for i in 0..cycles
        invariant
            array@.len() == n,
            n == length,
            g == cycles,
            0 <= f < n,
            0 < g <= n,
            g == gcd_of(f as nat, length as nat),
            divides(g, f as int),
            divides(g, n),
            forall|x: int|
                0 <= x < n ==> array@[x] == if x % g < i {
                    old(array)@[(x + f) % n]
                } else {
                    old(array)@[x]
                },
    {
        let ghost before = array@;
        let ghost jumps: int = 0;
        let ghost moved: Map<int, int> = Map::empty();
        let tmp = array[i];
        let mut j = i;
        proof {
            lemma_landing_start(i as int, f as int, n);
            lemma_small_mod(i as nat, g as nat);
        }

        loop
            invariant
                array@.len() == n,
                before.len() == n,
                n == length,
                0 <= f < n,
                0 < g <= n,
                0 <= i < g,
                divides(g, f as int),
                divides(g, n),
                tmp == old(array)@[i as int],
                0 <= jumps < n,
                0 <= j < n,
                j == landing(i as int, jumps, f as int, n),
                forall|u: int| 1 <= u <= jumps ==> #[trigger] landing(i as int, u, f as int, n) != i,
                forall|x: int| #[trigger]
                    moved.dom().contains(x) ==> 0 <= moved[x] < jumps && landing(
                        i as int,
                        moved[x],
                        f as int,
                        n,
                    ) == x,
                forall|u: int|
                    0 <= u < jumps ==> moved.dom().contains(
                        #[trigger] landing(i as int, u, f as int, n),
                    ),
                forall|x: int|
                    0 <= x < n ==> before[x] == if x % g < i {
                        old(array)@[(x + f) % n]
                    } else {
                        old(array)@[x]
                    },
                forall|x: int|
                    0 <= x < n ==> array@[x] == if moved.dom().contains(x) {
                        old(array)@[(x + f) % n]
                    } else {
                        before[x]
                    },
            ensures
                landing(i as int, jumps + 1, f as int, n) == i,
            decreases n - jumps,
        {
            let k = if j >= length - f {
                j - (length - f)
            } else {
                j + f
            };
            proof {
                lemma_landing_next(i as int, jumps, f as int, n);
                assert(k == (j + f) % n) by {
                    if j + f >= n {
                        lemma_mod_multiples_vanish(1, j + f - n, n);
                        lemma_small_mod((j + f - n) as nat, n as nat);
                    } else {
                        lemma_small_mod((j + f) as nat, n as nat);
                    }
                }
            }

            if k == i {
                break ;
            }
            proof {
                if moved.dom().contains(k as int) {
                    let u = moved[k as int];
                    lemma_landing_return(i as int, u, jumps + 1, f as int, n);
                    if u == 0 {
                        assert(false);
                    } else {
                        assert(landing(i as int, jumps + 1 - u, f as int, n) == i);
                        assert(false);
                    }
                }
                lemma_landing_residue(i as int, jumps + 1, f as int, n, g);
                lemma_landing_full_round(i as int, f as int, n);
            }

            array[j] = array[k];
            proof {
                moved = moved.insert(j as int, jumps);
                jumps = jumps + 1;
            }
            j = k;
        }
        array[j] = tmp;

        proof {
            let period = jumps + 1;
            let done = moved.insert(j as int, jumps);
            lemma_landing_next(i as int, jumps, f as int, n);
            assert forall|x: int| 0 <= x < n implies array@[x] == if x % g < i + 1 {
                old(array)@[(x + f) % n]
            } else {
                old(array)@[x]
            } by {
                if done.dom().contains(x) {
                    lemma_landing_residue(i as int, done[x], f as int, n, g);
                } else if x % g == i {
                    let u = lemma_landing_reaches(x, f as nat, length as nat);
                    lemma_landing_periodic(i as int, u, period, f as int, n);
                    lemma_mod_bound(u, period);
                    assert(done.dom().contains(landing(i as int, u % period, f as int, n)));
                }
            }
        }
    }
    proof {
        assert forall|x: int| 0 <= x < n implies array@[x] == old(array)@[(x + f) % n] by {
            lemma_mod_bound(x, g);
        }
        lemma_shifted_is_rotated(old(array)@, array@, f as int, factor as int);
    }
}

} // verus!

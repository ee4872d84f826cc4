//! The mathematical meaning of rotating a sequence, and the laws of
//! rotation.

use vstd::arithmetic::div_mod::lemma_mod_multiples_vanish;
use vstd::arithmetic::div_mod::lemma_small_mod;
use vstd::arithmetic::div_mod::lemma_sub_mod_noop;
use vstd::prelude::*;

verus! {

/// `s` rotated by `factor` places: the element at index `i` of the result is
/// the element at index `(i - factor) mod len` of `s`. A positive factor
/// moves every element towards the end (right rotation), a negative factor
/// towards the front (left rotation).
#[verifier::opaque]
pub open spec fn rotated(s: Seq<i32>, factor: int) -> Seq<i32> {
    Seq::new(s.len(), |i: int| s[(i - factor) % (s.len() as int)])
}

/// Factors that are congruent modulo the length rotate alike.
pub proof fn lemma_rotated_congruent(s: Seq<i32>, a: int, b: int)
    requires
        s.len() > 0 ==> a % (s.len() as int) == b % (s.len() as int),
    ensures
        rotated(s, a) == rotated(s, b),
{
    reveal(rotated);
    let n = s.len() as int;
    assert forall|i: int| 0 <= i < n implies #[trigger] rotated(s, a)[i] == rotated(s, b)[i] by {
        lemma_sub_mod_noop(i, a, n);
        lemma_sub_mod_noop(i, b, n);
    }
    assert(rotated(s, a) =~= rotated(s, b));
}

/// Rotating by `a` and then by `b` is rotating by `a + b`.
pub proof fn lemma_rotated_twice(s: Seq<i32>, a: int, b: int)
    ensures
        rotated(rotated(s, a), b) == rotated(s, a + b),
{
    reveal(rotated);
    let n = s.len() as int;
    assert forall|i: int| 0 <= i < n implies #[trigger] rotated(rotated(s, a), b)[i] == rotated(
        s,
        a + b,
    )[i] by {
        let from = (i - b) % n;
        lemma_sub_mod_noop(i - b, a, n);
        lemma_sub_mod_noop(from, a, n);
        lemma_small_mod(from as nat, n as nat);
        assert((from - a) % n == (i - (a + b)) % n);
    }
    assert(rotated(rotated(s, a), b) =~= rotated(s, a + b));
}

/// Rotating by nothing, or by the whole length, changes nothing.
pub proof fn lemma_rotated_full_turn(s: Seq<i32>)
    ensures
        rotated(s, 0) == s,
        rotated(s, s.len() as int) == s,
{
    reveal(rotated);
    let n = s.len() as int;
    assert forall|i: int| 0 <= i < n implies #[trigger] rotated(s, 0)[i] == s[i] && rotated(
        s,
        n,
    )[i] == s[i] by {
        lemma_small_mod(i as nat, n as nat);
        lemma_mod_multiples_vanish(-1, i, n);
    }
    assert(rotated(s, 0) =~= s);
    assert(rotated(s, n) =~= s);
}

/// Rotating by `factor` and then by `-factor`, or by the length less
/// `factor`, gives the sequence back.
pub proof fn lemma_rotated_back(s: Seq<i32>, factor: int)
    ensures
        rotated(rotated(s, factor), -factor) == s,
        rotated(rotated(s, factor), s.len() - factor) == s,
{
    let once = rotated(s, factor);
    let n = s.len() as int;
    assert(rotated(once, -factor) == s) by {
        lemma_rotated_twice(s, factor, -factor);
        lemma_rotated_full_turn(s);
        assert(factor + (-factor) == 0);
    }
    assert(rotated(once, n - factor) == s) by {
        lemma_rotated_twice(s, factor, n - factor);
        lemma_rotated_full_turn(s);
        assert(factor + (n - factor) == n);
    }
}

} // verus!

//! In-place rotation of `i32` slices: one place at a time, and by three
//! reversals.

use crate::rotation::lemma_rotated_congruent;
use crate::rotation::lemma_rotated_twice;
use crate::rotation::rotated;
use vstd::arithmetic::div_mod::lemma_add_mod_noop_right;
use vstd::arithmetic::div_mod::lemma_mod_multiples_vanish;
use vstd::arithmetic::div_mod::lemma_small_mod;
use vstd::arithmetic::div_mod::lemma_sub_mod_noop_right;
use vstd::prelude::*;

verus! {

/// The size of `factor`, whatever its sign.
pub open spec fn magnitude(factor: int) -> int {
    if factor < 0 {
        -factor
    } else {
        factor
    }
}

/// Reduces the size of `factor` to a number of places below `maximum`.
fn normalize_factor(factor: i32, maximum: usize) -> (places: usize)
    requires
        maximum > 0,
    ensures
        places == magnitude(factor as int) % (maximum as int),
{
    // In two's complement, flipping the bits of a negative number gives the
    // positive number less one; the one is added back after widening, where
    // it cannot overflow.
    let f: usize = if factor < 0 {
        assert(!factor == -1 - factor) by (bit_vector);
        (!factor) as usize + 1
    } else {
        factor as usize
    };

    // Convert the factor to a number in the range 0 - length.
    f % maximum
}

/// Rotating by the normalized number of places, in the direction of
/// `factor`, is rotating by `factor`.
proof fn lemma_normalized_rotation(s: Seq<i32>, factor: int, places: int)
    requires
        s.len() > 0,
        places == magnitude(factor) % (s.len() as int),
    ensures
        factor <= 0 ==> rotated(s, -places) == rotated(s, factor),
        factor > 0 ==> rotated(s, places) == rotated(s, factor),
{
    reveal(rotated);
    let n = s.len() as int;
    if factor <= 0 {
        assert forall|i: int| 0 <= i < n implies #[trigger] rotated(s, -places)[i] == rotated(
            s,
            factor,
        )[i] by {
            lemma_add_mod_noop_right(i, -factor, n);
        }
        assert(rotated(s, -places) =~= rotated(s, factor));
    } else {
        assert forall|i: int| 0 <= i < n implies #[trigger] rotated(s, places)[i] == rotated(
            s,
            factor,
        )[i] by {
            lemma_sub_mod_noop_right(i, factor, n);
        }
        assert(rotated(s, places) =~= rotated(s, factor));
    }
}

/// Moving the first element to the end rotates one place to the left.
proof fn lemma_one_place_left(before: Seq<i32>, after: Seq<i32>)
    requires
        before.len() > 0,
        after.len() == before.len(),
        forall|x: int| 0 <= x < before.len() - 1 ==> after[x] == before[x + 1],
        after[before.len() - 1] == before[0],
    ensures
        after == rotated(before, -1),
{
    reveal(rotated);
    let n = before.len() as int;
    assert forall|x: int| 0 <= x < n implies after[x] == #[trigger] rotated(before, -1)[x] by {
        if x + 1 < n {
            lemma_small_mod((x + 1) as nat, n as nat);
        } else {
            lemma_mod_multiples_vanish(1, 0, n);
        }
    }
    assert(after =~= rotated(before, -1));
}

/// Moving the last element to the front rotates one place to the right.
proof fn lemma_one_place_right(before: Seq<i32>, after: Seq<i32>)
    requires
        before.len() > 0,
        after.len() == before.len(),
        forall|x: int| 0 < x < before.len() ==> after[x] == before[x - 1],
        after[0] == before[before.len() - 1],
    ensures
        after == rotated(before, 1),
{
    reveal(rotated);
    let n = before.len() as int;
    assert forall|x: int| 0 <= x < n implies after[x] == #[trigger] rotated(before, 1)[x] by {
        if x >= 1 {
            lemma_small_mod((x - 1) as nat, n as nat);
        } else {
            lemma_mod_multiples_vanish(-1, n - 1, n);
            lemma_small_mod((n - 1) as nat, n as nat);
        }
    }
    assert(after =~= rotated(before, 1));
}

/// The rotation of an empty sequence is empty.
proof fn lemma_rotated_empty(s: Seq<i32>, factor: int)
    requires
        s.len() == 0,
    ensures
        rotated(s, factor) == s,
{
    reveal(rotated);
    assert(rotated(s, factor) =~= s);
}

/// Rotates `array` in place by `factor` places: to the right for a positive
/// factor, to the left otherwise. The factor may exceed the length.
///
/// Works one place at a time, each element trading places with its
/// neighbour: constant extra space, time in the order of places times length.
pub fn rotate(array: &mut [i32], factor: i32)
    ensures
        final(array)@ == rotated(old(array)@, factor as int),
{
    let reverse = factor <= 0;
    let length: usize = array.len();
    if length < 1 {
        proof {
            lemma_rotated_empty(array@, factor as int);
        }
        return ;
    }
    let f = normalize_factor(factor, length);

    let mut i: usize = 0;
    proof {
        crate::rotation::lemma_rotated_full_turn(array@);
    }
    while i < f
        invariant
            array@.len() == length,
            length >= 1,
            reverse == (factor <= 0),
            i <= f,
            reverse ==> array@ == rotated(old(array)@, -(i as int)),
            !reverse ==> array@ == rotated(old(array)@, i as int),
        decreases f - i,
    {
        let ghost before = array@;
        // Shift numbers
        // reverse:     Shift left
        // not reverse: Shift right
        let start = if reverse {
            1
        } else {
            length - 1
        };
        let mut j: usize = start;
        while (reverse && j < length) || (!reverse && j > 0)
            invariant
                array@.len() == length,
                before.len() == length,
                length >= 1,
                reverse ==> 1 <= j <= length,
                reverse ==> forall|x: int| 0 <= x < j - 1 ==> array@[x] == before[x + 1],
                reverse ==> array@[j - 1] == before[0],
                reverse ==> forall|x: int| j <= x < length ==> array@[x] == before[x],
                !reverse ==> j < length,
                !reverse ==> forall|x: int| j < x < length ==> array@[x] == before[x - 1],
                !reverse ==> array@[j as int] == before[length - 1],
                !reverse ==> forall|x: int| 0 <= x < j ==> array@[x] == before[x],
            decreases
                    if reverse {
                        length - j
                    } else {
                        j as int
                    },
        {
            let temp = array[j];
            let idx_prev = j - 1;
            let b = array[idx_prev];
            array[idx_prev] = temp;
            array[j] = b;
            j = if reverse {
                j + 1
            } else {
                j - 1
            };
        }
        proof {
            if reverse {
                lemma_one_place_left(before, array@);
                lemma_rotated_twice(old(array)@, -(i as int), -1);
            } else {
                lemma_one_place_right(before, array@);
                lemma_rotated_twice(old(array)@, i as int, 1);
            }
        }
        i += 1;
    }
    proof {
        lemma_normalized_rotation(old(array)@, factor as int, f as int);
    }
}

/// Reverses the elements of `arr` at the indices `[start, end)`.
fn reverse_range(arr: &mut [i32], start: usize, end: usize)
    requires
        start <= end <= old(arr)@.len(),
    ensures
        final(arr)@.len() == old(arr)@.len(),
        forall|x: int|
            start <= x < end ==> final(arr)@[x] == old(arr)@[start + end - 1 - x],
        forall|x: int|
            0 <= x < start || end <= x < old(arr)@.len() ==> final(arr)@[x] == old(arr)@[x],
{
    let mut low = start;
    let mut high = end;
    while high - low >= 2
        invariant
            arr@.len() == old(arr)@.len(),
            start <= low <= high <= end <= arr@.len(),
            low - start == end - high,
            forall|x: int|
                start <= x < low || high <= x < end ==> arr@[x] == old(arr)@[start + end - 1 - x],
            forall|x: int|
                0 <= x < start || low <= x < high || end <= x < arr@.len() ==> arr@[x] == old(
                    arr,
                )@[x],
        decreases high - low,
    {
        high -= 1;
        let temp = arr[low];
        arr[low] = arr[high];
        arr[high] = temp;
        low += 1;
    }
}

/// Rotates `array` in place by `factor` places, as [`rotate`] does, in time
/// in the order of the length: the two parts that trade places are reversed
/// each, and then the whole.
pub fn rotate_efficient(array: &mut [i32], factor: i32)
    ensures
        final(array)@ == rotated(old(array)@, factor as int),
{
    let reverse = factor <= 0;
    let length: usize = array.len();
    if length < 1 {
        proof {
            lemma_rotated_empty(array@, factor as int);
        }
        return ;
    }
    let f = normalize_factor(factor, length);
    // The number of places to the left.
    let f = if reverse {
        f
    } else {
        length - f
    };

    reverse_range(array, 0, f);
    reverse_range(array, f, length);
    reverse_range(array, 0, length);

    proof {
        reveal(rotated);
        let n = length as int;
        let places = magnitude(factor as int) % n;
        assert forall|x: int| 0 <= x < n implies array@[x] == #[trigger] rotated(
            old(array)@,
            -(f as int),
        )[x] by {
            if x + f < n {
                lemma_small_mod((x + f) as nat, n as nat);
            } else {
                lemma_mod_multiples_vanish(1, x + f - n, n);
                lemma_small_mod((x + f - n) as nat, n as nat);
            }
        }
        assert(array@ =~= rotated(old(array)@, -(f as int)));
        if !reverse {
            lemma_mod_multiples_vanish(-1, places, n);
            lemma_rotated_congruent(old(array)@, -(f as int), places);
        }
        lemma_normalized_rotation(old(array)@, factor as int, places);
    }
}

} // verus!

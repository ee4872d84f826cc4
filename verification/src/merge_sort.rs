//! Merge sort on `i32` slices with a caller-supplied work buffer.

use crate::sorted::is_sorted;
use crate::sorted::lemma_merged_elements;
use crate::sorted::lemma_merged_len;
use crate::sorted::lemma_merged_sorted;
use crate::sorted::merged;
use crate::sorted::same_elements;
use vstd::arithmetic::div_mod::lemma_fundamental_div_mod;
use vstd::arithmetic::div_mod::lemma_fundamental_div_mod_converse;
use vstd::arithmetic::mul::lemma_mul_inequality;
use vstd::arithmetic::mul::lemma_mul_is_commutative;
use vstd::prelude::*;
use vstd::seq_lib::lemma_multiset_commutative;

verus! {

/// Sorts `input` in place, top down: the range is halved, each half is sorted
/// with the two buffers trading places, and the halves are merged back.
///
/// `work` is scratch space of the same length; what it holds afterwards is
/// not specified.
pub fn top_down_merge_sort(input: &mut [i32], work: &mut [i32])
    requires
        old(input)@.len() == old(work)@.len(),
    ensures
        is_sorted(final(input)@),
        same_elements(final(input)@, old(input)@),
        final(input)@.len() == old(input)@.len(),
        final(work)@.len() == old(work)@.len(),
{
    let length = input.len();
    copy(input, work, length);
    assert(work@ == input@);
    top_down_split_merge(input, work, 0, length);
    assert(input@.subrange(0, length as int) == input@);
    assert(old(input)@.subrange(0, length as int) == old(input)@);
}

/// One level of the top-down sort on the range `[start_idx, end_idx)`: the
/// range is halved, each half is handled with the two buffers trading
/// places, and the halves are merged from `work` back into `input`.
///
/// Where `work` mirrors `input` on the range, the range of `input` comes out
/// sorted, with the elements it had. Whatever the buffers hold, nothing
/// outside the range is written in either of them, and a range of at most
/// one element leaves both as they are.
pub(crate) fn top_down_split_merge(
    input: &mut [i32],
    work: &mut [i32],
    start_idx: usize,
    end_idx: usize,
)
    requires
        start_idx <= end_idx <= old(input)@.len(),
        old(input)@.len() == old(work)@.len(),
    ensures
        final(input)@.len() == old(input)@.len(),
        final(work)@.len() == old(work)@.len(),
        old(input)@.subrange(start_idx as int, end_idx as int) == old(work)@.subrange(
            start_idx as int,
            end_idx as int,
        ) ==> is_sorted(final(input)@.subrange(start_idx as int, end_idx as int))
            && same_elements(
            final(input)@.subrange(start_idx as int, end_idx as int),
            old(input)@.subrange(start_idx as int, end_idx as int),
        ),
        forall|x: int|
            0 <= x < start_idx || end_idx <= x < old(input)@.len() ==> final(input)@[x] == old(
                input,
            )@[x] && final(work)@[x] == old(work)@[x],
        end_idx - start_idx <= 1 ==> final(input)@ == old(input)@ && final(work)@ == old(work)@,
    decreases end_idx - start_idx,
{
    // A run of at most one element is sorted already.
    if end_idx - start_idx <= 1 {
        return ;
    }
    let middle_idx = start_idx + ((end_idx - start_idx) / 2);
    let ghost start = start_idx as int;
    let ghost middle = middle_idx as int;
    let ghost end = end_idx as int;
    let ghost whole = input@.subrange(start, end);
    let ghost left = input@.subrange(start, middle);
    let ghost right = input@.subrange(middle, end);
    let ghost mirrored = whole == work@.subrange(start, end);

    proof {
        if mirrored {
            assert(work@.subrange(start, middle) == left) by {
                assert(work@.subrange(start, middle) == work@.subrange(start, end).subrange(
                    0,
                    middle - start,
                ));
                assert(left == whole.subrange(0, middle - start));
            }
            assert(work@.subrange(middle, end) == right) by {
                assert(work@.subrange(middle, end) == work@.subrange(start, end).subrange(
                    middle - start,
                    end - start,
                ));
                assert(right == whole.subrange(middle - start, end - start));
            }
        }
    }

    // Sort both halves from `input` into `work`.
    top_down_split_merge(work, input, start_idx, middle_idx);
    let ghost sorted_left = work@.subrange(start, middle);
    proof {
        if mirrored {
            assert(work@.subrange(middle, end) == right);
            assert(input@.subrange(middle, end) == right);
            assert(same_elements(sorted_left, left));
        }
    }
    top_down_split_merge(work, input, middle_idx, end_idx);
    let ghost sorted_right = work@.subrange(middle, end);
    proof {
        if mirrored {
            assert(work@.subrange(start, middle) == sorted_left);
            assert(same_elements(sorted_right, right));
        }
    }

    // Merge the two sorted halves from `work` back into `input`.
    merge(work, input, start_idx, middle_idx, end_idx);
    proof {
        lemma_merged_len(work@.subrange(start, middle), sorted_right);
        if mirrored {
            lemma_merged_sorted(sorted_left, sorted_right);
            lemma_merged_elements(sorted_left, sorted_right);
            lemma_multiset_commutative(left, right);
            assert(whole == left + right);
            assert(input@.subrange(start, end) == merged(sorted_left, sorted_right));
            assert(whole.to_multiset() == left.to_multiset().add(right.to_multiset()));
        }
    }
}

/// Every aligned block of `width` elements of `s` is in non-decreasing
/// order; the last block may be shorter.
spec fn runs_sorted(s: Seq<i32>, width: int) -> bool {
    forall|x: int, y: int| 0 <= x <= y < s.len() && x / width == y / width ==> s[x] <= s[y]
}

/// An index inside the block that starts at `block * width` has quotient
/// `block`.
proof fn lemma_inside_block(x: int, width: int, block: int)
    requires
        width > 0,
        block * width <= x < block * width + width,
    ensures
        x / width == block,
{
    lemma_fundamental_div_mod_converse(x, width, block, x - block * width);
}

/// An index before the block that starts at `block * width` has a smaller
/// quotient.
proof fn lemma_before_block(x: int, width: int, block: int)
    requires
        width > 0,
        0 <= x < block * width,
    ensures
        x / width < block,
{
    if x / width >= block {
        lemma_fundamental_div_mod(x, width);
        lemma_mul_inequality(block, x / width, width);
        lemma_mul_is_commutative(width, x / width);
    }
}

/// `a + b`, or `limit` where the sum would pass it.
fn capped_add(a: usize, b: usize, limit: usize) -> (sum: usize)
    requires
        a <= limit,
    ensures
        sum == if a + b <= limit {
            a + b
        } else {
            limit as int
        },
{
    if b >= limit - a {
        limit
    } else {
        a + b
    }
}

/// Sorts `input` in place, bottom up: runs of width 1, 2, 4, ... are merged
/// pairwise from `input` into `work` and copied back, until one run covers
/// the whole sequence.
///
/// `work` is scratch space of the same length; what it holds afterwards is
/// not specified.
pub fn bottom_up_merge_sort(input: &mut [i32], work: &mut [i32])
    requires
        old(input)@.len() == old(work)@.len(),
    ensures
        is_sorted(final(input)@),
        same_elements(final(input)@, old(input)@),
        final(input)@.len() == old(input)@.len(),
        final(work)@.len() == old(work)@.len(),
{
    let length = input.len();

    // Each 1-element run in input is sorted already.
    let mut width: usize = 1;
    while width < length
        invariant
            input@.len() == length,
            work@.len() == length,
            work@.len() == old(work)@.len(),
            width >= 1,
            runs_sorted(input@, width as int),
            same_elements(input@, old(input)@),
        decreases length - width,
    {
        let ghost double = 2 * width;
        let ghost pairs: int = 0;
        let mut i: usize = 0;
        assert(work@.subrange(0, 0) == input@.subrange(0, 0));
        // `input` is full of sorted runs of length `width`.
        while i < length
            invariant
                input@.len() == length,
                work@.len() == length,
                1 <= width < length,
                double == 2 * width,
                runs_sorted(input@, width as int),
                i <= length,
                0 <= pairs,
                i < length ==> i == pairs * double,
                forall|x: int, y: int|
                    0 <= x <= y < i && x / double == y / double ==> work@[x] <= work@[y],
                same_elements(work@.subrange(0, i as int), input@.subrange(0, i as int)),
            decreases length - i,
        {
            let middle = capped_add(i, width, length);
            let end = capped_add(middle, width, length);
            let ghost left = input@.subrange(i as int, middle as int);
            let ghost right = input@.subrange(middle as int, end as int);
            let ghost before = work@;
            // Merge the runs input[i..middle) and input[middle..end) into
            // work; a lone short run at the tail is copied as it is.
            merge(input, work, i, middle, end);
            proof {
                assert(2 * pairs * width == pairs * double) by (nonlinear_arith)
                    requires
                        double == 2 * width,
                ;
                assert((2 * pairs + 1) * width == pairs * double + width) by (nonlinear_arith)
                    requires
                        double == 2 * width,
                ;
                assert((pairs + 1) * double == pairs * double + double) by (nonlinear_arith);
                assert(is_sorted(left)) by {
                    assert forall|x: int, y: int| 0 <= x <= y < left.len() implies left[x]
                        <= left[y] by {
                        lemma_inside_block(i + x, width as int, 2 * pairs);
                        lemma_inside_block(i + y, width as int, 2 * pairs);
                        assert(left[x] == input@[i + x] && left[y] == input@[i + y]);
                    }
                }
                assert(is_sorted(right)) by {
                    assert forall|x: int, y: int| 0 <= x <= y < right.len() implies right[x]
                        <= right[y] by {
                        lemma_inside_block(middle + x, width as int, 2 * pairs + 1);
                        lemma_inside_block(middle + y, width as int, 2 * pairs + 1);
                        assert(right[x] == input@[middle + x] && right[y] == input@[middle + y]);
                    }
                }
                let both = merged(left, right);
                lemma_merged_len(left, right);
                lemma_merged_sorted(left, right);
                lemma_merged_elements(left, right);
                assert forall|x: int, y: int|
                    0 <= x <= y < end && x / double == y / double implies work@[x] <= work@[y] by {
                    if y < i {
                        assert(work@[x] == before[x] && work@[y] == before[y]);
                    } else if x >= i {
                        assert(work@[x] == both[x - i] && work@[y] == both[y - i]);
                    } else {
                        lemma_before_block(x, double, pairs);
                        lemma_inside_block(y, double, pairs);
                    }
                }
                assert(same_elements(
                    work@.subrange(0, end as int),
                    input@.subrange(0, end as int),
                )) by {
                    let done = before.subrange(0, i as int);
                    let read = input@.subrange(0, i as int);
                    assert(work@.subrange(0, end as int) == done + both);
                    assert(input@.subrange(0, end as int) == read + (left + right));
                    lemma_multiset_commutative(done, both);
                    lemma_multiset_commutative(read, left + right);
                    lemma_multiset_commutative(left, right);
                }
                pairs = pairs + 1;
            }
            i = end;
        }

        // `work` is full of sorted runs of length `2 * width`: copy it back
        // for the next pass.
        assert(work@.subrange(0, length as int) == work@);
        assert(input@.subrange(0, length as int) == input@);
        copy(work, input, length);
        assert(input@ == work@);
        width = capped_add(width, width, length);
        proof {
            if width != double {
                assert forall|x: int, y: int|
                    0 <= x <= y < input@.len() && x / (width as int) == y / (
                    width as int) implies input@[x] <= input@[y] by {
                    lemma_inside_block(x, double, 0);
                    lemma_inside_block(y, double, 0);
                }
            }
        }
    }
    proof {
        assert forall|x: int, y: int| 0 <= x <= y < input@.len() implies input@[x] <= input@[y] by {
            lemma_inside_block(x, width as int, 0);
            lemma_inside_block(y, width as int, 0);
        }
    }
}

/// Merges the two adjacent runs `[start_idx, middle_idx)` and
/// `[middle_idx, end_idx)` of `input` into the same index range of `output`.
///
/// The smaller head is written first, the head of the left run on a tie; when
/// one run is used up the rest of the other is copied in order. Nothing
/// outside `[start_idx, end_idx)` is written.
pub fn merge(
    input: &[i32],
    output: &mut [i32],
    start_idx: usize,
    middle_idx: usize,
    end_idx: usize,
)
    requires
        start_idx <= middle_idx <= end_idx,
        end_idx <= input@.len(),
        end_idx <= old(output)@.len(),
    ensures
        final(output)@ == old(output)@.subrange(0, start_idx as int) + merged(
            input@.subrange(start_idx as int, middle_idx as int),
            input@.subrange(middle_idx as int, end_idx as int),
        ) + old(output)@.subrange(end_idx as int, old(output)@.len() as int),
{
    let ghost left = input@.subrange(start_idx as int, middle_idx as int);
    let ghost right = input@.subrange(middle_idx as int, end_idx as int);
    let mut i = start_idx;
    let mut j = middle_idx;

    for k in start_idx..end_idx
        invariant
            start_idx <= middle_idx <= end_idx,
            end_idx <= input@.len(),
            left == input@.subrange(start_idx as int, middle_idx as int),
            right == input@.subrange(middle_idx as int, end_idx as int),
            start_idx <= i <= middle_idx <= j <= end_idx,
            k - start_idx == (i - start_idx) + (j - middle_idx),
            output@.len() == old(output)@.len(),
            end_idx <= output@.len(),
            forall|x: int|
                0 <= x < start_idx || k <= x < output@.len() ==> output@[x] == old(output)@[x],
            output@.subrange(start_idx as int, k as int) + merged(
                input@.subrange(i as int, middle_idx as int),
                input@.subrange(j as int, end_idx as int),
            ) == merged(left, right),
    {
        let ghost rest_left = input@.subrange(i as int, middle_idx as int);
        let ghost rest_right = input@.subrange(j as int, end_idx as int);
        let ghost done = output@.subrange(start_idx as int, k as int);
        // If left run head exists and is <= existing right run head.
        if i < middle_idx && (j >= end_idx || input[i] <= input[j]) {
            output[k] = input[i];
            i += 1;
            proof {
                let next_left = input@.subrange(i as int, middle_idx as int);
                assert(rest_left.drop_first() == next_left);
                assert(merged(rest_left, rest_right) == seq![rest_left[0]] + merged(
                    next_left,
                    rest_right,
                )) by {
                    if rest_right.len() == 0 {
                        assert(merged(next_left, rest_right) == next_left);
                        assert(rest_left == seq![rest_left[0]] + next_left);
                    }
                }
                assert(output@.subrange(start_idx as int, k + 1) == done + seq![rest_left[0]]);
            }
        } else {
            output[k] = input[j];
            j += 1;
            proof {
                let next_right = input@.subrange(j as int, end_idx as int);
                assert(rest_right.drop_first() == next_right);
                assert(merged(rest_left, rest_right) == seq![rest_right[0]] + merged(
                    rest_left,
                    next_right,
                )) by {
                    if rest_left.len() == 0 {
                        assert(merged(rest_left, next_right) == next_right);
                        assert(rest_right == seq![rest_right[0]] + next_right);
                    }
                }
                assert(output@.subrange(start_idx as int, k + 1) == done + seq![rest_right[0]]);
            }
        }
    }
    proof {
        assert(merged(
            input@.subrange(i as int, middle_idx as int),
            input@.subrange(j as int, end_idx as int),
        ) == Seq::<i32>::empty());
        assert(output@.subrange(start_idx as int, end_idx as int) == merged(left, right));
        assert(output@ == old(output)@.subrange(0, start_idx as int) + merged(left, right)
            + old(output)@.subrange(end_idx as int, old(output)@.len() as int));
    }
}

/// Copies the first `n` elements of `src` over the first `n` elements of
/// `dest`; the rest of `dest` keeps its contents.
pub fn copy(src: &[i32], dest: &mut [i32], n: usize)
    requires
        n <= src@.len(),
        n <= old(dest)@.len(),
    ensures
        final(dest)@ == src@.subrange(0, n as int) + old(dest)@.subrange(
            n as int,
            old(dest)@.len() as int,
        ),
{
    let mut k: usize = 0;
    while k < n
        invariant
            k <= n,
            n <= src@.len(),
            dest@.len() == old(dest)@.len(),
            n <= dest@.len(),
            forall|x: int| 0 <= x < k ==> dest@[x] == src@[x],
            forall|x: int| k <= x < dest@.len() ==> dest@[x] == old(dest)@[x],
        decreases n - k,
    {
        dest[k] = src[k];
        k += 1;
    }
}

} // verus!

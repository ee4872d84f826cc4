//! The top-down merge sort laid out for fork-join execution: every level
//! hands its two halves on as disjoint views of the buffers.

use crate::merge_sort::copy;
use crate::merge_sort::merge;
use crate::merge_sort::top_down_split_merge;
use crate::sorted::is_sorted;
use crate::sorted::lemma_merged_elements;
use crate::sorted::lemma_merged_len;
use crate::sorted::lemma_merged_sorted;
use crate::sorted::merged;
use crate::sorted::same_elements;
use vstd::prelude::*;
use vstd::seq_lib::lemma_multiset_commutative;

verus! {

/// The longest range that is sorted without forking: to fork costs more than
/// to sort it in line.
pub const INLINE_LENGTH: usize = 1024;

/// What is done with a range.
#[derive(Clone, Copy, Debug, PartialEq, Eq)]
pub enum Plan {
    /// At most one element: there is nothing to do.
    Done,
    /// Sort the range in line, without forking.
    Inline,
    /// Sort `[0, middle)` and `[middle, length)` apart from each other, wait
    /// for both, and merge.
    Fork { middle: usize },
}

/// Decides what is done with a range of `length` elements.
pub fn plan(length: usize) -> (step: Plan)
    ensures
        step == if length <= 1 {
            Plan::Done
        } else if length <= INLINE_LENGTH {
            Plan::Inline
        } else {
            Plan::Fork { middle: (length / 2) as usize }
        },
{
    if length <= 1 {
        Plan::Done
    } else if length <= INLINE_LENGTH {
        Plan::Inline
    } else {
        Plan::Fork { middle: length / 2 }
    }
}

/// Sorts `input` in place by the recursion of the top-down merge sort, laid
/// out for fork-join execution: a range longer than [`INLINE_LENGTH`] is
/// split into two disjoint views of each buffer, and each half is sorted on
/// its own views, so that the two sub-sorts share no memory and may run as
/// concurrent tasks; the halves are merged when both are done. Here the two
/// sub-sorts run one after the other.
///
/// `work` is scratch space of the same length; what it holds afterwards is
/// not specified.
pub fn fork_join_merge_sort(input: &mut [i32], work: &mut [i32])
    requires
        old(input)@.len() == old(work)@.len(),
    ensures
        is_sorted(final(input)@),
        same_elements(final(input)@, old(input)@),
        final(input)@.len() == old(input)@.len(),
        final(work)@.len() == old(work)@.len(),
{
    let length = input.len();
    copy(input, work, length);
    assert(work@ == input@);
    fork_join_split_merge(input, work);
}

/// One level of the recursion on a pair of views of equal length. Where
/// `work` mirrors `input`, `input` comes out sorted, with the elements it
/// had. Whatever the views hold, views of at most one element are left as
/// they are.
fn fork_join_split_merge(input: &mut [i32], work: &mut [i32])
    requires
        old(input)@.len() == old(work)@.len(),
    ensures
        final(input)@.len() == old(input)@.len(),
        final(work)@.len() == old(work)@.len(),
        old(input)@ == old(work)@ ==> is_sorted(final(input)@) && same_elements(
            final(input)@,
            old(input)@,
        ),
        old(input)@.len() <= 1 ==> final(input)@ == old(input)@ && final(work)@ == old(work)@,
    decreases old(input)@.len(),
{
    let length = input.len();
    let ghost mirrored = input@ == work@;
    match plan(length) {
        Plan::Done => {},
        Plan::Inline => {
            assert(input@.subrange(0, length as int) == input@);
            assert(work@.subrange(0, length as int) == work@);
            top_down_split_merge(input, work, 0, length);
            assert(input@.subrange(0, length as int) == input@);
        },
        Plan::Fork { middle } => {
            let ghost whole = input@;
            let (input_left, input_right) = input.split_at_mut(middle);
            let (work_left, work_right) = work.split_at_mut(middle);
            let ghost left = input_left@;
            let ghost right = input_right@;
            proof {
                if mirrored {
                    assert(work_left@ == left) by {
                        assert(work_left@ == old(work)@.subrange(0, middle as int));
                        assert(left == whole.subrange(0, middle as int));
                    }
                    assert(work_right@ == right) by {
                        assert(work_right@ == old(work)@.subrange(middle as int, length as int));
                        assert(right == whole.subrange(middle as int, length as int));
                    }
                }
            }
            // The two halves share no memory.
            fork_join_split_merge(work_left, input_left);
            fork_join_split_merge(work_right, input_right);
            let ghost sorted_left = work_left@;
            let ghost sorted_right = work_right@;
            assert(work@ == sorted_left + sorted_right);
            merge(work, input, 0, middle, length);
            proof {
                assert(work@.subrange(0, middle as int) == sorted_left);
                assert(work@.subrange(middle as int, length as int) == sorted_right);
                lemma_merged_len(sorted_left, sorted_right);
                if mirrored {
                    assert(whole == left + right);
                    lemma_merged_sorted(sorted_left, sorted_right);
                    lemma_merged_elements(sorted_left, sorted_right);
                    lemma_multiset_commutative(left, right);
                    assert(input@ == merged(sorted_left, sorted_right));
                }
            }
        },
    }
}

} // verus!

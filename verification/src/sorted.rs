//! Mathematical vocabulary for sorting: sortedness, equality of contents,
//! and the result of merging two runs.

use vstd::prelude::*;
use vstd::seq_lib::lemma_multiset_commutative;
use vstd::seq_lib::lemma_sorted_unique;
use vstd::relations::sorted_by;

verus! {

/// `s` is in non-decreasing order.
pub open spec fn is_sorted(s: Seq<i32>) -> bool {
    forall|i: int, j: int| 0 <= i <= j < s.len() ==> s[i] <= s[j]
}

/// `a` and `b` hold the same values, each the same number of times.
pub open spec fn same_elements(a: Seq<i32>, b: Seq<i32>) -> bool {
    a.to_multiset() == b.to_multiset()
}

/// The merge of `left` and `right`: the smaller head goes first, the head of
/// `left` on a tie, and once one side is used up the other follows as it is.
pub open spec fn merged(left: Seq<i32>, right: Seq<i32>) -> Seq<i32>
    decreases left.len() + right.len(),
{
    if left.len() == 0 {
        right
    } else if right.len() == 0 {
        left
    } else if left[0] <= right[0] {
        seq![left[0]] + merged(left.drop_first(), right)
    } else {
        seq![right[0]] + merged(left, right.drop_first())
    }
}

/// A merge is as long as its two runs together.
pub proof fn lemma_merged_len(left: Seq<i32>, right: Seq<i32>)
    ensures
        merged(left, right).len() == left.len() + right.len(),
    decreases left.len() + right.len(),
{
    if left.len() == 0 || right.len() == 0 {
    } else if left[0] <= right[0] {
        lemma_merged_len(left.drop_first(), right);
    } else {
        lemma_merged_len(left, right.drop_first());
    }
}

/// A merge holds exactly the elements of its two runs.
pub proof fn lemma_merged_elements(left: Seq<i32>, right: Seq<i32>)
    ensures
        merged(left, right).to_multiset() == left.to_multiset().add(right.to_multiset()),
    decreases left.len() + right.len(),
{
    broadcast use vstd::multiset::group_multiset_axioms;

    let both = left.to_multiset().add(right.to_multiset());
    if left.len() == 0 {
        lemma_multiset_commutative(left, right);
        assert(left + right =~= right);
    } else if right.len() == 0 {
        lemma_multiset_commutative(left, right);
        assert(left + right =~= left);
    } else if left[0] <= right[0] {
        let rest = left.drop_first();
        lemma_merged_elements(rest, right);
        lemma_multiset_commutative(seq![left[0]], merged(rest, right));
        lemma_multiset_commutative(seq![left[0]], rest);
        assert(seq![left[0]] + rest =~= left);
        assert(merged(left, right).to_multiset() =~= both);
    } else {
        let rest = right.drop_first();
        lemma_merged_elements(left, rest);
        lemma_multiset_commutative(seq![right[0]], merged(left, rest));
        lemma_multiset_commutative(seq![right[0]], rest);
        assert(seq![right[0]] + rest =~= right);
        assert(merged(left, right).to_multiset() =~= both);
    }
}

/// Every element of a merge is at least as large as the smaller of the two
/// heads.
proof fn lemma_merged_lower_bound(left: Seq<i32>, right: Seq<i32>, low: i32)
    requires
        forall|i: int| 0 <= i < left.len() ==> low <= left[i],
        forall|i: int| 0 <= i < right.len() ==> low <= right[i],
    ensures
        forall|i: int| 0 <= i < merged(left, right).len() ==> low <= merged(left, right)[i],
    decreases left.len() + right.len(),
{
    let all = merged(left, right);
    if left.len() == 0 || right.len() == 0 {
    } else if left[0] <= right[0] {
        let rest = left.drop_first();
        assert forall|i: int| 0 <= i < rest.len() implies low <= rest[i] by {
            assert(rest[i] == left[i + 1]);
        }
        lemma_merged_lower_bound(rest, right, low);
        assert forall|i: int| 0 <= i < all.len() implies low <= all[i] by {
            if i > 0 {
                assert(all[i] == merged(rest, right)[i - 1]);
            }
        }
    } else {
        let rest = right.drop_first();
        assert forall|i: int| 0 <= i < rest.len() implies low <= rest[i] by {
            assert(rest[i] == right[i + 1]);
        }
        lemma_merged_lower_bound(left, rest, low);
        assert forall|i: int| 0 <= i < all.len() implies low <= all[i] by {
            if i > 0 {
                assert(all[i] == merged(left, rest)[i - 1]);
            }
        }
    }
}

/// Merging two sorted runs gives a sorted run.
pub proof fn lemma_merged_sorted(left: Seq<i32>, right: Seq<i32>)
    requires
        is_sorted(left),
        is_sorted(right),
    ensures
        is_sorted(merged(left, right)),
    decreases left.len() + right.len(),
{
    if left.len() == 0 || right.len() == 0 {
    } else if left[0] <= right[0] {
        let rest = left.drop_first();
        assert(is_sorted(rest)) by {
            assert forall|i: int, j: int| 0 <= i <= j < rest.len() implies rest[i] <= rest[j] by {
                assert(rest[i] == left[i + 1] && rest[j] == left[j + 1]);
            }
        }
        lemma_merged_sorted(rest, right);
        assert forall|i: int| 0 <= i < rest.len() implies left[0] <= rest[i] by {
            assert(rest[i] == left[i + 1]);
        }
        lemma_merged_lower_bound(rest, right, left[0]);
    } else {
        let rest = right.drop_first();
        assert(is_sorted(rest)) by {
            assert forall|i: int, j: int| 0 <= i <= j < rest.len() implies rest[i] <= rest[j] by {
                assert(rest[i] == right[i + 1] && rest[j] == right[j + 1]);
            }
        }
        lemma_merged_sorted(left, rest);
        assert forall|i: int| 0 <= i < rest.len() implies right[0] <= rest[i] by {
            assert(rest[i] == right[i + 1]);
        }
        lemma_merged_lower_bound(left, rest, right[0]);
    }
}

/// A sequence has only one sorted arrangement: two sorted sequences with the
/// same elements are equal.
pub proof fn lemma_sorted_arrangement_unique(a: Seq<i32>, b: Seq<i32>)
    requires
        is_sorted(a),
        is_sorted(b),
        same_elements(a, b),
    ensures
        a == b,
{
    let leq = |x: i32, y: i32| x <= y;
    assert(sorted_by(a, leq));
    assert(sorted_by(b, leq));
    lemma_sorted_unique(a, b, leq);
}

/// Sorting what is sorted changes nothing: where `once` is a sorted
/// arrangement of some sequence, and `twice` a sorted arrangement of `once`,
/// the two are equal.
pub proof fn lemma_sort_idempotent(once: Seq<i32>, twice: Seq<i32>)
    requires
        is_sorted(once),
        is_sorted(twice),
        same_elements(twice, once),
    ensures
        twice == once,
{
    lemma_sorted_arrangement_unique(twice, once);
}

/// Any two ways of sorting agree: two sorted arrangements of one sequence
/// are equal, element for element.
pub proof fn lemma_sorts_agree(s: Seq<i32>, by_one: Seq<i32>, by_other: Seq<i32>)
    requires
        is_sorted(by_one),
        same_elements(by_one, s),
        is_sorted(by_other),
        same_elements(by_other, s),
    ensures
        by_one == by_other,
{
    lemma_sorted_arrangement_unique(by_one, by_other);
}

} // verus!

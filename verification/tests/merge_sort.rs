use algorithms::merge_sort::bottom_up_merge_sort;
use algorithms::merge_sort::copy;
use algorithms::merge_sort::merge;
use algorithms::merge_sort::top_down_merge_sort;

#[test]
fn mod_test_empty_array() {
    let mut src = [];
    let mut work = [];

    top_down_merge_sort(&mut src, &mut work);

    assert!(src.is_empty());

    let mut src = [];
    let mut work = [];

    bottom_up_merge_sort(&mut src, &mut work);

    assert!(src.is_empty())
}

#[test]
fn mod_test_single_element_array() {
    let mut src = [1];
    let mut work = [0; 1];

    top_down_merge_sort(&mut src, &mut work);

    assert_eq!(1, src[0]);

    let mut src = [1];
    let mut work = [0; 1];

    bottom_up_merge_sort(&mut src, &mut work);

    assert_eq!(1, src[0]);
}

#[test]
fn mod_test_small_arrays() {
    let mut input = [2, 1];
    let mut work = [0; 2];

    top_down_merge_sort(&mut input, &mut work);

    assert_eq!(&[1, 2], &input);

    let mut input = [4, 1, 2];
    let mut work = [0; 3];

    top_down_merge_sort(&mut input, &mut work);

    assert_eq!(&[1, 2, 4], &input);

    let mut input = [4, 1, 2, 5];
    let mut work = [0; 4];

    top_down_merge_sort(&mut input, &mut work);

    assert_eq!(&[1, 2, 4, 5], &input);

    let mut input = [2, 1];
    let mut work = [0; 2];

    bottom_up_merge_sort(&mut input, &mut work);

    assert_eq!(&[1, 2], &input);

    let mut input = [4, 1, 2, 5];
    let mut work = [0; 4];

    bottom_up_merge_sort(&mut input, &mut work);

    assert_eq!(&[1, 2, 4, 5], &input);
}

#[test]
fn mod_test_unsorted_array() {
    let mut input = [2, 1, 10, 4, 4, 3, 7, 5];
    let mut work = [0; 8];

    top_down_merge_sort(&mut input, &mut work);

    assert_eq!(&[1, 2, 3, 4, 4, 5, 7, 10], &input);

    let mut input = [2, 1, 10, 4, 4, 3, 7, 5];
    let mut work = [0; 8];

    bottom_up_merge_sort(&mut input, &mut work);

    assert_eq!(&[1, 2, 3, 4, 4, 5, 7, 10], &input);
}

#[test]
fn mod_test_reversed_array() {
    let mut input = [8, 7, 6, 5, 4, 3, 2, 1];
    let mut work = [0; 8];

    top_down_merge_sort(&mut input, &mut work);

    assert_eq!(&[1, 2, 3, 4, 5, 6, 7, 8], &input);

    let mut input = [8, 7, 6, 5, 4, 3, 2, 1];
    let mut work = [0; 8];

    bottom_up_merge_sort(&mut input, &mut work);

    assert_eq!(&[1, 2, 3, 4, 5, 6, 7, 8], &input);
}

#[test]
fn test_merge_both_empty() {
    let input = [];
    let mut output = [];

    merge(&input, &mut output, 0, 0, 0);

    assert_eq!(&[0; 0], &input);
}

#[test]
fn test_merge_one_empty() {
    let input = [1];
    let mut output = [0; 1];

    merge(&input, &mut output, 0, 1, 1);

    assert_eq!(&[1], &output);
}

#[test]
fn test_merge_one_element() {
    let input = [1, 2];
    let mut output = [0; 2];

    merge(&input, &mut output, 0, 1, 2);

    assert_eq!(&[1, 2], &output);
}

#[test]
fn test_merge_two_elements() {
    let input = [1, 3, 2, 4];
    let mut output = [0; 4];

    merge(&input, &mut output, 0, 2, 4);

    assert_eq!(&[1, 2, 3, 4], &output);
}

#[test]
fn test_merge_multiple_elements() {
    let input = [1, 3, 2, 4];
    let mut output = [0; 4];

    merge(&input, &mut output, 0, 2, 4);

    assert_eq!(&[1, 2, 3, 4], &output);

    let input = [1, 4, 2, 5];
    let mut output = [4, 1, 2, 5];

    merge(&input, &mut output, 0, 2, 4);

    assert_eq!(&[1, 2, 4, 5], &output);
}

#[test]
fn copy_overwrites_only_the_prefix() {
    let src = [1, 2, 3, 4];
    let mut dest = [9, 9, 9, 9, 9];

    copy(&src, &mut dest, 3);

    assert_eq!(&[1, 2, 3, 9, 9], &dest);
}

#[test]
fn merge_writes_only_its_range() {
    let input = [9, 2, 6, 1, 5, 9];
    let mut output = [70, 71, 72, 73, 74, 75];

    merge(&input, &mut output, 1, 3, 5);

    assert_eq!(&[70, 1, 2, 5, 6, 75], &output);
}

#[test]
fn merge_of_runs_that_are_not_sorted_follows_the_heads() {
    // Left run [3, 1], right run [2, 0]: 2 goes first, then 0, since each is
    // smaller than the head 3; then the left run as it is.
    let input = [3, 1, 2, 0];
    let mut output = [0; 4];

    merge(&input, &mut output, 0, 2, 4);

    assert_eq!(&[2, 0, 3, 1], &output);
}

#[test]
fn merge_with_an_empty_left_run_copies_the_right() {
    let input = [4, 5, 6];
    let mut output = [0; 3];

    merge(&input, &mut output, 0, 0, 3);

    assert_eq!(&[4, 5, 6], &output);
}

#[test]
fn sorts_of_an_odd_length() {
    let mut input = [5, -1, 3, 3, 0, 9, -7];
    let mut work = [0; 7];
    top_down_merge_sort(&mut input, &mut work);
    assert_eq!(&[-7, -1, 0, 3, 3, 5, 9], &input);

    let mut input = [5, -1, 3, 3, 0, 9, -7];
    let mut work = [0; 7];
    bottom_up_merge_sort(&mut input, &mut work);
    assert_eq!(&[-7, -1, 0, 3, 3, 5, 9], &input);
}

#[test]
fn sorts_at_the_ends_of_the_range() {
    let mut input = [i32::MAX, 0, i32::MIN, -1, 1];
    let mut work = [0; 5];
    bottom_up_merge_sort(&mut input, &mut work);
    assert_eq!(&[i32::MIN, -1, 0, 1, i32::MAX], &input);
}

use algorithms::fork_join::fork_join_merge_sort;
use algorithms::fork_join::plan;
use algorithms::fork_join::Plan;
use algorithms::fork_join::INLINE_LENGTH;
use algorithms::merge_sort::bottom_up_merge_sort;
use algorithms::merge_sort::top_down_merge_sort;

/// A fixed sequence of numbers that looks random.
fn scrambled(length: usize, seed: u64) -> Vec<i32> {
    let mut state = seed;
    let mut values = Vec::with_capacity(length);
    for _ in 0..length {
        state = state
            .wrapping_mul(6364136223846793005)
            .wrapping_add(1442695040888963407);
        values.push(((state >> 33) as i32) % 1000 - 500);
    }
    values
}

#[test]
fn plan_of_short_and_long_ranges() {
    assert_eq!(Plan::Done, plan(0));
    assert_eq!(Plan::Done, plan(1));
    assert_eq!(Plan::Inline, plan(2));
    assert_eq!(Plan::Inline, plan(INLINE_LENGTH));
    assert_eq!(
        Plan::Fork {
            middle: (INLINE_LENGTH + 1) / 2
        },
        plan(INLINE_LENGTH + 1)
    );
    assert_eq!(Plan::Fork { middle: 2500 }, plan(5001));
}

#[test]
fn fork_join_sorts_empty_and_single() {
    let mut src: [i32; 0] = [];
    let mut work: [i32; 0] = [];
    fork_join_merge_sort(&mut src, &mut work);
    assert!(src.is_empty());

    let mut src = [1];
    let mut work = [0; 1];
    fork_join_merge_sort(&mut src, &mut work);
    assert_eq!(1, src[0]);
}

#[test]
fn all_three_sorts_on_reversed_input() {
    let mut input = [8, 7, 6, 5, 4, 3, 2, 1];
    let mut work = [0; 8];
    top_down_merge_sort(&mut input, &mut work);
    assert_eq!(&[1, 2, 3, 4, 5, 6, 7, 8], &input);

    let mut input = [8, 7, 6, 5, 4, 3, 2, 1];
    let mut work = [0; 8];
    bottom_up_merge_sort(&mut input, &mut work);
    assert_eq!(&[1, 2, 3, 4, 5, 6, 7, 8], &input);

    let mut input = [8, 7, 6, 5, 4, 3, 2, 1];
    let mut work = [0; 8];
    fork_join_merge_sort(&mut input, &mut work);
    assert_eq!(&[1, 2, 3, 4, 5, 6, 7, 8], &input);
}

#[test]
fn all_three_sorts_on_input_with_duplicates() {
    let mut input = [2, 1, 10, 4, 4, 3, 7, 5];
    let mut work = [0; 8];
    top_down_merge_sort(&mut input, &mut work);
    assert_eq!(&[1, 2, 3, 4, 4, 5, 7, 10], &input);

    let mut input = [2, 1, 10, 4, 4, 3, 7, 5];
    let mut work = [0; 8];
    bottom_up_merge_sort(&mut input, &mut work);
    assert_eq!(&[1, 2, 3, 4, 4, 5, 7, 10], &input);

    let mut input = [2, 1, 10, 4, 4, 3, 7, 5];
    let mut work = [0; 8];
    fork_join_merge_sort(&mut input, &mut work);
    assert_eq!(&[1, 2, 3, 4, 4, 5, 7, 10], &input);
}

#[test]
fn sorts_agree_on_scrambled_inputs_of_many_lengths() {
    let lengths = [
        0, 1, 2, 3, 4, 5, 7, 8, 9, 15, 16, 17, 31, 33, 100, 255, 256, 257, 1000, 1023, 1024,
        1025, 2047, 2048, 2049, 4097, 10000,
    ];
    for (round, length) in lengths.iter().enumerate() {
        let original = scrambled(*length, round as u64 + 1);
        let mut expected = original.clone();
        expected.sort();

        let mut a = original.clone();
        let mut work = vec![0; *length];
        top_down_merge_sort(&mut a, &mut work);

        let mut b = original.clone();
        let mut work = vec![7; *length];
        bottom_up_merge_sort(&mut b, &mut work);

        let mut c = original.clone();
        let mut work = vec![-3; *length];
        fork_join_merge_sort(&mut c, &mut work);

        assert_eq!(expected, a);
        assert_eq!(expected, b);
        assert_eq!(expected, c);
    }
}

#[test]
fn fork_join_agrees_with_top_down_below_and_above_the_inline_length() {
    for length in [INLINE_LENGTH - 1, INLINE_LENGTH, INLINE_LENGTH + 1, 3 * INLINE_LENGTH + 5] {
        let original = scrambled(length, 99);

        let mut a = original.clone();
        let mut work = vec![0; length];
        top_down_merge_sort(&mut a, &mut work);

        let mut b = original.clone();
        let mut work = vec![0; length];
        fork_join_merge_sort(&mut b, &mut work);

        assert_eq!(a, b);
    }
}

#[test]
fn sorting_twice_is_sorting_once() {
    let original = scrambled(777, 5);

    let mut once = original.clone();
    let mut work = vec![0; 777];
    top_down_merge_sort(&mut once, &mut work);

    let mut twice = once.clone();
    top_down_merge_sort(&mut twice, &mut work);
    assert_eq!(once, twice);

    let mut twice = once.clone();
    bottom_up_merge_sort(&mut twice, &mut work);
    assert_eq!(once, twice);

    let mut twice = once.clone();
    fork_join_merge_sort(&mut twice, &mut work);
    assert_eq!(once, twice);
}

#[test]
fn sorting_keeps_every_element() {
    let original = scrambled(500, 11);
    let mut sorted = original.clone();
    let mut work = vec![0; 500];
    bottom_up_merge_sort(&mut sorted, &mut work);

    for i in 1..sorted.len() {
        assert!(sorted[i - 1] <= sorted[i]);
    }
    for value in -500..500 {
        let before = original.iter().filter(|v| **v == value).count();
        let after = sorted.iter().filter(|v| **v == value).count();
        assert_eq!(before, after);
    }
}

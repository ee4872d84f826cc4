use algorithms::array_rotate::rotate;
use algorithms::cycle_rotate::gcd;
use algorithms::cycle_rotate::left_rotate;

#[test]
fn should_return_original_array_given_a_single_element_array() {
    let mut array = [2];

    left_rotate(&mut array, 2);

    assert_eq!(array[0], 2);
}

#[test]
fn should_return_rotated_array() {
    let mut array = [1, 2, 3, 4, 5];

    left_rotate(&mut array, 2);

    assert_eq!(array[0], 3);
    assert_eq!(array[3], 1);
}

#[test]
fn left_rotate_of_an_empty_array() {
    let mut array: [i32; 0] = [];

    left_rotate(&mut array, 3);

    assert!(array.is_empty());
}

#[test]
fn left_rotate_moves_every_element() {
    let mut array = [1, 2, 3, 4, 5, 6];
    left_rotate(&mut array, 7);
    assert_eq!([2, 3, 4, 5, 6, 1], array);

    // Shift and length share the divisor 2: two cycles.
    let mut array = [1, 2, 3, 4, 5, 6];
    left_rotate(&mut array, 4);
    assert_eq!([5, 6, 1, 2, 3, 4], array);

    // Shift and length share the divisor 3: three cycles.
    let mut array = [1, 2, 3, 4, 5, 6];
    left_rotate(&mut array, 3);
    assert_eq!([4, 5, 6, 1, 2, 3], array);

    let mut array = [1, 2, 3, 4, 5, 6];
    left_rotate(&mut array, 0);
    assert_eq!([1, 2, 3, 4, 5, 6], array);

    let mut array = [1, 2, 3, 4, 5, 6];
    left_rotate(&mut array, 6);
    assert_eq!([1, 2, 3, 4, 5, 6], array);
}

#[test]
fn left_rotate_agrees_with_rotate_by_the_negated_factor() {
    let arr = [4, 8, 15, 16, 23, 42, 7, 7, 1, 0, 3, 5];
    for factor in 0..30usize {
        let mut a = arr;
        let mut b = arr;
        left_rotate(&mut a, factor);
        rotate(&mut b, -(factor as i32));
        assert_eq!(a, b);
    }
}

#[test]
fn left_rotate_by_a_huge_factor() {
    // usize::MAX is 2^64 - 1 or 2^32 - 1: both leave 0 when divided by 5,
    // and 3 when divided by 4.
    let mut array = [1, 2, 3, 4, 5];
    left_rotate(&mut array, usize::MAX);
    assert_eq!([1, 2, 3, 4, 5], array);

    let mut array = [1, 2, 3, 4];
    left_rotate(&mut array, usize::MAX);
    assert_eq!([4, 1, 2, 3], array);
}

#[test]
fn gcd_of_index_sized_numbers() {
    assert_eq!(6, gcd(12, 18));
    assert_eq!(6, gcd(18, 12));
    assert_eq!(1, gcd(7, 13));
    assert_eq!(5, gcd(0, 5));
    assert_eq!(5, gcd(5, 0));
    assert_eq!(0, gcd(0, 0));
    assert_eq!(63, gcd(1386, 3213));
}

use algorithms::math::gcd;

#[test]
fn test_with_0() {
    let res = gcd(0, 0);
    assert!(res.is_err());
    assert_eq!(res.unwrap_err(), "values cannot be 0");
}

#[test]
fn test_gcd() {
    let result = gcd(-1386, 3213);
    assert!(result.is_ok());
    assert_eq!(result.unwrap(), 63);
}

#[test]
fn test_gcd_unsigned() {
    let result = gcd(20u8, 30u8);
    assert!(result.is_ok());
    assert_eq!(result.unwrap(), 10);
}

#[test]
fn test_gcd_neg() {
    let result = gcd(-20, -30);
    assert!(result.is_ok());
    assert_eq!(result.unwrap(), 10);
}

#[test]
fn gcd_does_not_depend_on_the_order() {
    for a in -40i32..=40 {
        for b in -40i32..=40 {
            assert_eq!(gcd(a, b), gcd(b, a));
        }
    }
}

#[test]
fn gcd_with_one_zero_is_the_size_of_the_other() {
    assert_eq!(Ok(7), gcd(0, 7));
    assert_eq!(Ok(7), gcd(7, 0));
    assert_eq!(Ok(7), gcd(0, -7));
    assert_eq!(Ok(7), gcd(-7, 0));
    assert_eq!(Ok(9u64), gcd(0u64, 9u64));
}

#[test]
fn gcd_of_zero_and_zero_fails_in_every_type() {
    assert_eq!(Err("values cannot be 0"), gcd(0i8, 0i8));
    assert_eq!(Err("values cannot be 0"), gcd(0i16, 0i16));
    assert_eq!(Err("values cannot be 0"), gcd(0i64, 0i64));
    assert_eq!(Err("values cannot be 0"), gcd(0i128, 0i128));
    assert_eq!(Err("values cannot be 0"), gcd(0u8, 0u8));
    assert_eq!(Err("values cannot be 0"), gcd(0u16, 0u16));
    assert_eq!(Err("values cannot be 0"), gcd(0u32, 0u32));
    assert_eq!(Err("values cannot be 0"), gcd(0u64, 0u64));
    assert_eq!(Err("values cannot be 0"), gcd(0u128, 0u128));
}

#[test]
fn gcd_in_every_integer_type() {
    assert_eq!(Ok(6i8), gcd(-12i8, 18i8));
    assert_eq!(Ok(6i16), gcd(12i16, -18i16));
    assert_eq!(Ok(6i32), gcd(-12i32, -18i32));
    assert_eq!(Ok(6i64), gcd(12i64, 18i64));
    assert_eq!(Ok(6i128), gcd(-12i128, 18i128));
    assert_eq!(Ok(6u8), gcd(12u8, 18u8));
    assert_eq!(Ok(6u16), gcd(12u16, 18u16));
    assert_eq!(Ok(6u32), gcd(12u32, 18u32));
    assert_eq!(Ok(6u64), gcd(12u64, 18u64));
    assert_eq!(Ok(6u128), gcd(12u128, 18u128));
}

#[test]
fn gcd_of_coprime_numbers_is_one() {
    assert_eq!(Ok(1), gcd(17, 31));
    assert_eq!(Ok(1), gcd(-17, 31));
    assert_eq!(Ok(1u8), gcd(255u8, 254u8));
}

#[test]
fn gcd_at_the_edges_of_the_range() {
    // The lowest value is allowed where the result can be held.
    assert_eq!(Ok(2), gcd(i32::MIN, 6));
    assert_eq!(Ok(2), gcd(6, i32::MIN));
    assert_eq!(Ok(64i8), gcd(i8::MIN, 64i8));
    assert_eq!(Ok(i32::MAX), gcd(i32::MAX, i32::MAX));
    assert_eq!(Ok(i32::MAX), gcd(-i32::MAX, 0));
    assert_eq!(Ok(255u8), gcd(255u8, 0u8));
    assert_eq!(Ok(1), gcd(i32::MIN, 1));
    assert_eq!(Ok(1), gcd(1, i32::MIN));
}

use factorial_cache::bignat::BigNat;
use factorial_cache::codec::decimal_bytes;
use factorial_cache::factorial::compute;

fn dec(v: &BigNat) -> String {
    String::from_utf8(decimal_bytes(v)).unwrap()
}

#[test]
fn factorial_of_zero_is_one() {
    assert_eq!(dec(&compute(0)), "1");
}

#[test]
fn factorial_of_one_is_one() {
    assert_eq!(dec(&compute(1)), "1");
}

#[test]
fn factorial_of_two() {
    assert_eq!(dec(&compute(2)), "2");
}

#[test]
fn factorial_of_five() {
    assert_eq!(dec(&compute(5)), "120");
}

#[test]
fn factorial_of_ten() {
    assert_eq!(dec(&compute(10)), "3628800");
}

#[test]
fn factorial_of_twenty() {
    assert_eq!(dec(&compute(20)), "2432902008176640000");
}

#[test]
fn factorial_of_fifty() {
    assert_eq!(
        dec(&compute(50)),
        "30414093201713378043612608166064768844377641568960512000000000000"
    );
}

#[test]
fn zero_prints_as_zero() {
    let z = BigNat::zero();
    assert_eq!(dec(&z), "0");
}

#[test]
fn from_u64_round_trips_through_decimal() {
    let v = BigNat::from_u64(9876543210);
    assert_eq!(dec(&v), "9876543210");
    let m = BigNat::from_u64(u64::MAX);
    assert_eq!(dec(&m), "18446744073709551615");
}

#[test]
fn mul_u64_multiplies() {
    let v = BigNat::from_u64(u64::MAX);
    let w = v.mul_u64(u64::MAX);
    // (2^64 - 1)^2 = 340282366920938463426481119284349108225
    assert_eq!(dec(&w), "340282366920938463426481119284349108225");
    let z = v.mul_u64(0);
    assert_eq!(dec(&z), "0");
}

#[test]
fn equals_compares_digit_sequences() {
    let a = BigNat::from_u64(120);
    let b = compute(5);
    assert!(a.equals(&b));
    let c = BigNat::from_u64(121);
    assert!(!a.equals(&c));
    assert!(BigNat::zero().equals(&BigNat::zero()));
}

use kanso::number::{Big, Int};

fn num(n: i64) -> Int {
    Int::from_i64(n)
}

#[test]
fn small_arithmetic_stays_small() {
    assert_eq!(num(40).add(&num(2)).to_i64(), Some(42));
    assert_eq!(num(40).sub(&num(82)).to_i64(), Some(-42));
    assert_eq!(num(-6).mul(&num(7)).to_i64(), Some(-42));
    assert_eq!(num(-42).render(), "-42");
    assert_eq!(num(0).render(), "0");
    assert!(num(0).is_zero());
}

#[test]
fn overflow_widens_instead_of_wrapping() {
    let past = num(i64::MAX).add(&num(1));
    assert_eq!(past.render(), "9223372036854775808");
    assert_eq!(past.to_i64(), None);
    // only a word-sized value narrows, even where the wide one would fit
    assert_eq!(past.to_u64(), None);
    assert_eq!(num(7).to_u64(), Some(7));
    assert_eq!(num(-7).to_u64(), None);
    let square = num(1 << 62).mul(&num(4));
    assert_eq!(square.render(), "18446744073709551616");
    assert_eq!(square.to_u64(), None);
    // and narrows again when the result fits
    assert_eq!(past.sub(&num(1)).to_i64(), Some(i64::MAX));
    let below = num(i64::MIN).sub(&num(1));
    assert_eq!(below.render(), "-9223372036854775809");
}

#[test]
fn division_truncates_toward_zero() {
    assert_eq!(num(7).div(&num(-2)).to_i64(), Some(-3));
    assert_eq!(num(-7).div(&num(2)).to_i64(), Some(-3));
    assert_eq!(num(-7).rem(&num(2)).to_i64(), Some(-1));
    assert_eq!(num(7).rem(&num(-2)).to_i64(), Some(1));
    // the one quotient of two words that does not fit a word
    let q = num(i64::MIN).div(&num(-1));
    assert_eq!(q.render(), "9223372036854775808");
    assert_eq!(num(i64::MIN).rem(&num(-1)).to_i64(), Some(0));
}

#[test]
fn wide_numbers_divide_and_compare() {
    let big = num(1 << 62).mul(&num(16));
    assert_eq!(big.div(&num(8)).render(), "9223372036854775808");
    assert_eq!(big.rem(&num(1000)).to_i64(), Some(464));
    assert_eq!(big.order(&num(i64::MAX)), 1);
    assert_eq!(num(i64::MIN).order(&big), -1);
    assert_eq!(big.order(&big), 0);
    assert!(big.equals(&num(1 << 62).mul(&num(16))));
    assert!(!big.equals(&num(1)));
}

#[test]
fn a_wide_value_carries_its_sign_and_digits() {
    let b = num(i64::MIN).sub(&num(1)).big();
    assert!(b.negative);
    assert_eq!(b.digits, vec![1, 0x8000_0000]);
    let back = Int::from_big(Big { negative: true, digits: vec![1, 0x8000_0000] });
    assert_eq!(back.render(), "-9223372036854775809");
    // a value that fits a word comes back small
    let fits = Int::from_big(Big { negative: false, digits: vec![5] });
    assert_eq!(fits.to_i64(), Some(5));
    assert_eq!(Big::from_i64(-5).negated().word(), Some(5));
}

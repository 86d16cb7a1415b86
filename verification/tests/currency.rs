use axer::client::currency::{Currency, Error, WINSTONS_PER_AR};

#[test]
fn parse_splits_on_the_decimal_point() {
    let c = Currency::parse("12.5").unwrap();
    assert_eq!(c.arweave, 12);
    assert_eq!(c.winston, 5);
}

#[test]
fn parse_reads_bare_winston_amounts() {
    let c = Currency::parse("1000000000000").unwrap();
    assert_eq!(c.arweave, 0);
    assert_eq!(c.winston, 1_000_000_000_000);
}

#[test]
fn parse_rejects_garbage() {
    assert_eq!(Currency::parse(""), Err(Error::ParseIntError));
    assert_eq!(Currency::parse("abc"), Err(Error::ParseIntError));
    assert_eq!(Currency::parse("1.2.3"), Err(Error::ParseIntError));
    assert_eq!(Currency::parse("-5"), Err(Error::ParseIntError));
    // Just past 64 bits.
    assert_eq!(Currency::parse("18446744073709551616"), Err(Error::ParseIntError));
}

#[test]
fn parse_accepts_a_leading_plus_like_std() {
    let c = Currency::parse("+7").unwrap();
    assert_eq!(c.winston, 7);
    assert_eq!("+7".parse::<u64>().unwrap(), 7);
}

#[test]
fn from_u128_divides_out_whole_ar() {
    let c = Currency::from_u128(3 * (WINSTONS_PER_AR as u128) + 250);
    assert_eq!(c.arweave, 3);
    assert_eq!(c.winston, 250);

    let small = Currency::from_u128(999_999_999_999);
    assert_eq!(small.arweave, 0);
    assert_eq!(small.winston, 999_999_999_999);
}

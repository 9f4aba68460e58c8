use billion_rows::fixed::to_decimal_int;
use billion_rows::stats::{median, sort_values};
use billion_rows::Error;

#[test]
fn test_to_decimal_int() {
    assert_eq!(259, to_decimal_int(b"25.9").unwrap());
    assert_eq!(207, to_decimal_int(b"20.7").unwrap());
}

#[test]
fn decode_zero_and_sign() {
    assert_eq!(0, to_decimal_int(b"0.0").unwrap());
    assert_eq!(-51, to_decimal_int(b"-5.1").unwrap());
    assert_eq!(-5, to_decimal_int(b"-0.5").unwrap());
    assert_eq!(105124, to_decimal_int(b"10512.4").unwrap());
}

#[test]
fn decode_rejects_malformed() {
    assert_eq!(Err(Error::NotANumber), to_decimal_int(b""));
    assert_eq!(Err(Error::NotANumber), to_decimal_int(b"-"));
    assert_eq!(Err(Error::NotANumber), to_decimal_int(b"25"));
    assert_eq!(Err(Error::NotANumber), to_decimal_int(b"25."));
    assert_eq!(Err(Error::NotANumber), to_decimal_int(b".5"));
    assert_eq!(Err(Error::NotANumber), to_decimal_int(b"25.91"));
    assert_eq!(Err(Error::NotANumber), to_decimal_int(b"2a.9"));
    assert_eq!(Err(Error::NotANumber), to_decimal_int(b"25.x"));
    assert_eq!(Err(Error::NotANumber), to_decimal_int(b"--2.9"));
}

#[test]
fn decode_range_boundaries() {
    assert_eq!(i64::MAX, to_decimal_int(b"922337203685477580.7").unwrap());
    assert_eq!(i64::MIN, to_decimal_int(b"-922337203685477580.8").unwrap());
    assert_eq!(Err(Error::OutOfRange), to_decimal_int(b"922337203685477580.8"));
    assert_eq!(Err(Error::OutOfRange), to_decimal_int(b"-922337203685477580.9"));
    assert_eq!(Err(Error::OutOfRange), to_decimal_int(b"9999999999999999999999.9"));
}

#[test]
fn sort_values_orders_ascending() {
    let vals: Vec<i64> = vec![30, 10, 20, 10, -5];
    let sorted = sort_values(&vals);
    assert_eq!(vec![-5, 10, 10, 20, 30], sorted);
}

#[test]
fn median_law() {
    // Twice the median: for {10, 20, 30} the median is 20; for
    // {10, 20, 30, 40} it is 25, the mean of 20 and 30.
    assert_eq!(40, median(&vec![10, 20, 30]));
    assert_eq!(50, median(&vec![10, 20, 30, 40]));
    assert_eq!(14, median(&vec![7]));
}

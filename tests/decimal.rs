use orderbook_aggregator::decimal::parse_decimal;
use orderbook_aggregator::order_book::{OrderBook, PriceLevel, SCALE};

#[test]
fn parses_order_book() {
    let book = OrderBook::<2>::parse(
        &[["0.07500500", "0.09700000"], ["0.07500300", "10.85240000"]],
        &[["0.07501000", "0.16140000"], ["0.07501300", "0.10000000"]],
    )
    .unwrap();

    assert_eq!(book.bid[0].price, 7_500_500);
    assert_eq!(book.bid[0].amount, 9_700_000);
    assert_eq!(book.ask[0].price, 7_501_000);
    assert_eq!(book.ask[0].amount, 16_140_000);
    assert_eq!(book.bid[1].amount, 1_085_240_000);
}

#[test]
fn rejects_book_with_bad_level() {
    let book = OrderBook::<2>::parse(
        &[["0.07500500", "0.09700000"], ["0.07500300", "x"]],
        &[["0.07501000", "0.16140000"], ["0.07501300", "0.10000000"]],
    );
    assert!(book.is_none());
}

#[test]
fn parses_level_text() {
    assert_eq!(PriceLevel::parse(&["101", "1.5"]), Some(PriceLevel { price: 101 * SCALE, amount: 3 * SCALE / 2 }));
    assert_eq!(PriceLevel::parse(&["101", ""]), None);
}

#[test]
fn decimal_forms() {
    assert_eq!(parse_decimal(b"1"), Some(SCALE));
    assert_eq!(parse_decimal(b"0"), Some(0));
    assert_eq!(parse_decimal(b"12.5"), Some(1_250_000_000));
    assert_eq!(parse_decimal(b"0.00000001"), Some(1));
    assert_eq!(parse_decimal(b"007.10"), Some(710_000_000));
}

#[test]
fn decimal_rejects_malformed() {
    assert_eq!(parse_decimal(b""), None);
    assert_eq!(parse_decimal(b"1."), None);
    assert_eq!(parse_decimal(b".5"), None);
    assert_eq!(parse_decimal(b"-1"), None);
    assert_eq!(parse_decimal(b"1.2.3"), None);
    assert_eq!(parse_decimal(b"1.123456789"), None);
    assert_eq!(parse_decimal(b"abc"), None);
    assert_eq!(parse_decimal(b"1e5"), None);
}

#[test]
fn decimal_largest_value() {
    assert_eq!(parse_decimal(b"184467440737.09551615"), Some(u64::MAX));
    assert_eq!(parse_decimal(b"184467440737.09551616"), None);
    assert_eq!(parse_decimal(b"99999999999999999999999"), None);
}

#[test]
fn sortedness_check() {
    let good = OrderBook::from(&[(5, 1), (4, 1)], &[(6, 1), (7, 1)]);
    let bad = OrderBook::from(&[(4, 1), (5, 1)], &[(6, 1), (7, 1)]);
    assert!(good.is_sorted());
    assert!(!bad.is_sorted());
    assert!(OrderBook::<3>::default().is_sorted());
}

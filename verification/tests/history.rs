use stocks::history::{setup_trade_history, Fraction, Trade, TradeHistory, TradeType};

const UNIT: f64 = 1_000_000.0;

#[test]
fn test_trade_history_value() {
    let trade_history = setup_trade_history();
    let error_margin = f64::EPSILON;

    let value = trade_history.value().unwrap() as f64 / UNIT;
    assert!((value - 2157.75).abs() < error_margin);
}

#[test]
fn test_trade_history_quantity() {
    let trade_history = setup_trade_history();
    assert_eq!(trade_history.quantity(), 125);
}

#[test]
fn test_trade_history_average_price() {
    let trade_history = setup_trade_history();
    let error_margin = f64::EPSILON;

    let average = trade_history.average_price().unwrap();
    let average_price = average.numerator as f64 / (average.denominator as f64 * UNIT);
    assert!((average_price - 14.958571428571428).abs() < error_margin);
}

#[test]
fn trade_history_totals_are_exact() {
    let history = setup_trade_history();
    assert_eq!(history.value(), Some(2_157_750_000));
    assert_eq!(history.money_moved(TradeType::BUY), Some(2_617_750_000));
    assert_eq!(history.money_moved(TradeType::SELL), Some(460_000_000));
    assert_eq!(history.shares_moved(TradeType::BUY), 175);
    assert_eq!(history.shares_moved(TradeType::SELL), 50);
    assert_eq!(
        history.average_price(),
        Some(Fraction { numerator: 2_617_750_000, denominator: 175 })
    );
}

#[test]
fn trade_history_without_buys_has_no_average() {
    let history = TradeHistory::new(vec![Trade::new(TradeType::SELL, 10, 1_000_000)]);
    assert_eq!(history.average_price(), None);
    assert_eq!(history.quantity(), -10);
    assert_eq!(history.value(), Some(-10_000_000));
}

#[test]
fn empty_trade_history_is_all_zero() {
    let history = TradeHistory::new(Vec::new());
    assert_eq!(history.value(), Some(0));
    assert_eq!(history.quantity(), 0);
    assert_eq!(history.average_price(), None);
}

#[test]
fn largest_trades_stay_within_the_limit() {
    // One trade moves just under 2^96; 2^31 of them would reach the limit of
    // 2^127 - 1, which no test can hold, so the limit is met from the other
    // side: the largest trades stay within it.
    let largest = Trade::new(TradeType::BUY, u32::MAX, u64::MAX);
    let history = TradeHistory::new(vec![largest, largest, largest]);
    let each = u32::MAX as u128 * u64::MAX as u128;
    assert_eq!(history.money_moved(TradeType::BUY), Some(3 * each));
    assert_eq!(history.value(), Some(3 * each as i128));
    assert_eq!(history.quantity(), 3 * u32::MAX as i128);
}

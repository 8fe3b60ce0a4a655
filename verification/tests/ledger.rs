use stocks::error::LedgerError;
use stocks::position::Holding;
use stocks::stock::Stock;
use stocks::timestamp::Timestamp;
use stocks::trade::{Effective, Ratio, Split, Trade, TradeKind};
use time::{Date, Month};

fn day(year: i32, month: u8, day: u8) -> Timestamp {
    let date = Date::from_calendar_date(year, Month::try_from(month).unwrap(), day).unwrap();
    Timestamp::new(date.midnight().assume_utc().unix_timestamp_nanos(), 0).unwrap()
}

fn money(units: u64, cents: u64) -> u64 {
    units * 1_000_000 + cents * 10_000
}

fn ledger() -> Stock {
    Stock::new(String::from("BBAS3"))
}

#[test]
fn new_ledger_is_empty() {
    let stock = ledger();
    assert_eq!(stock.symbol(), "BBAS3");
    assert!(stock.trades().is_empty());
    assert_eq!(stock.quantity(&day(2024, 1, 1)), Ok(0));
    assert_eq!(stock.average_purchase_price(&day(2024, 1, 1)), Ok(0));
    assert_eq!(stock.position(&day(2024, 1, 1)), Ok(Holding { quantity: 0, cost: 0 }));
}

#[test]
fn two_buys_average_by_quantity() {
    let mut stock = ledger();
    stock.buy(100, money(10, 0), day(2024, 1, 1));
    stock.buy(200, money(15, 0), day(2024, 2, 1));
    let after = day(2024, 3, 1);
    assert_eq!(stock.quantity(&after), Ok(300));
    // (10 * 100 + 15 * 200) / 300 = 13.333333
    assert_eq!(stock.average_purchase_price(&after), Ok(13_333_333));
    assert_eq!(
        stock.position(&after),
        Ok(Holding { quantity: 300, cost: 4_000_000_000 })
    );
}

#[test]
fn buys_add_up() {
    let mut stock = ledger();
    stock.buy(10, money(3, 0), day(2024, 3, 1));
    stock.buy(20, money(1, 50), day(2024, 1, 1));
    stock.buy(5, money(7, 1), day(2024, 2, 1));
    let after = day(2024, 4, 1);
    assert_eq!(stock.quantity(&after), Ok(35));
    // (10 * 3.00 + 20 * 1.50 + 5 * 7.01) / 35 = 95.05 / 35 = 2.715714...
    assert_eq!(stock.position(&after), Ok(Holding { quantity: 35, cost: 95_050_000 }));
    assert_eq!(stock.average_purchase_price(&after), Ok(2_715_714));
}

#[test]
fn scenario_buy_buy_sell() {
    let mut stock = ledger();
    stock.buy(100, money(10, 0), day(2024, 1, 1));
    stock.buy(200, money(15, 0), day(2024, 2, 1));
    let average = stock.average_purchase_price(&day(2024, 3, 1)).unwrap();
    assert!((average as f64 / 1e6 - 13.33).abs() < 0.01);
    assert_eq!(stock.quantity(&day(2024, 3, 1)), Ok(300));

    let profit = stock.sell(200, money(20, 0), day(2024, 3, 15)).unwrap();
    assert!((profit as f64 / 1e6 - 1333.33).abs() < 0.01);
    assert_eq!(profit, (20_000_000 - 13_333_333) * 200);

    assert_eq!(stock.quantity(&day(2024, 4, 1)), Ok(100));
    let later = stock.average_purchase_price(&day(2024, 4, 1)).unwrap();
    assert!((later as f64 / 1e6 - 13.33).abs() < 0.01);
    assert_eq!(later, average);
}

#[test]
fn queries_leave_out_the_date_itself() {
    let mut stock = ledger();
    stock.buy(100, money(10, 0), day(2024, 1, 10));
    assert_eq!(stock.quantity(&day(2024, 1, 10)), Ok(0));
    assert_eq!(stock.quantity(&day(2024, 1, 11)), Ok(100));
    assert_eq!(stock.quantity(&day(2024, 1, 9)), Ok(0));
    assert_eq!(stock.average_purchase_price(&day(2024, 1, 10)), Ok(0));
    assert_eq!(stock.average_purchase_price(&day(2024, 1, 11)), Ok(10_000_000));
}

#[test]
fn full_sell_resets_the_average() {
    let mut stock = ledger();
    stock.buy(100, money(10, 0), day(2024, 1, 1));
    stock.buy(50, money(16, 0), day(2024, 1, 5));
    assert_eq!(stock.sell(150, money(12, 0), day(2024, 2, 1)), Ok(0));
    assert_eq!(stock.quantity(&day(2024, 2, 2)), Ok(0));
    assert_eq!(stock.average_purchase_price(&day(2024, 2, 2)), Ok(0));
    assert_eq!(stock.average_purchase_price(&day(2030, 1, 1)), Ok(0));
    // Reopening starts a new average.
    stock.buy(10, money(30, 0), day(2024, 3, 1));
    assert_eq!(stock.average_purchase_price(&day(2024, 3, 2)), Ok(30_000_000));
    // The history stays.
    assert_eq!(stock.trades().len(), 4);
    assert_eq!(stock.quantity(&day(2024, 1, 6)), Ok(150));
}

#[test]
fn selling_too_much_is_refused_and_records_nothing() {
    let mut stock = ledger();
    stock.buy(100, money(10, 0), day(2024, 1, 1));
    assert_eq!(
        stock.sell(101, money(10, 0), day(2024, 2, 1)),
        Err(LedgerError::InsufficientShares)
    );
    assert_eq!(stock.trades().len(), 1);
    assert_eq!(stock.quantity(&day(2024, 3, 1)), Ok(100));
    // Shares bought later do not count at the moment of the sell.
    assert_eq!(
        stock.sell(1, money(10, 0), day(2023, 12, 31)),
        Err(LedgerError::InsufficientShares)
    );
    // Nor shares bought at the very moment.
    assert_eq!(
        stock.sell(1, money(10, 0), day(2024, 1, 1)),
        Err(LedgerError::InsufficientShares)
    );
    assert_eq!(stock.trades().len(), 1);
    assert_eq!(stock.sell(100, money(11, 0), day(2024, 2, 1)), Ok(100_000_000));
}

#[test]
fn trades_are_kept_in_time_order() {
    let mut stock = ledger();
    stock.buy(3, money(1, 0), day(2024, 3, 1));
    stock.buy(1, money(1, 0), day(2024, 1, 1));
    stock.buy(2, money(1, 0), day(2024, 2, 1));
    stock.buy(4, money(1, 0), day(2024, 2, 1));
    let quantities: Vec<u32> = stock.trades().iter().map(|t| t.quantity).collect();
    assert_eq!(quantities, vec![1, 2, 4, 3]);
}

#[test]
fn split_doubles_shares_and_halves_cost_after_its_date() {
    let mut stock = ledger();
    stock.buy(100, money(10, 0), day(2024, 1, 1));
    stock.buy(200, money(16, 0), day(2024, 2, 1));
    let before_q = stock.quantity(&day(2024, 6, 1)).unwrap();
    let before_avg = stock.average_purchase_price(&day(2024, 6, 1)).unwrap();
    let early_q = stock.quantity(&day(2024, 3, 1)).unwrap();
    let early_avg = stock.average_purchase_price(&day(2024, 3, 1)).unwrap();
    assert_eq!((before_q, before_avg), (300, 14_000_000));

    let two_for_one = Ratio { numerator: 2, denominator: 1 };
    assert_eq!(stock.split(two_for_one, day(2024, 3, 1)), Ok(()));

    assert_eq!(stock.quantity(&day(2024, 6, 1)), Ok(2 * before_q));
    assert_eq!(stock.average_purchase_price(&day(2024, 6, 1)), Ok(before_avg / 2));
    assert_eq!(stock.quantity(&day(2024, 3, 2)), Ok(600));
    // Up to the date of the split, itself included, nothing changes.
    assert_eq!(stock.quantity(&day(2024, 3, 1)), Ok(early_q));
    assert_eq!(stock.average_purchase_price(&day(2024, 3, 1)), Ok(early_avg));
    assert_eq!(stock.quantity(&day(2024, 1, 15)), Ok(100));
    assert_eq!(stock.average_purchase_price(&day(2024, 1, 15)), Ok(10_000_000));
}

#[test]
fn split_is_attached_to_earlier_trades_only() {
    let mut stock = ledger();
    stock.buy(100, money(10, 0), day(2024, 1, 1));
    stock.buy(50, money(10, 0), day(2024, 5, 1));
    stock.split(Ratio { numerator: 2, denominator: 1 }, day(2024, 3, 1)).unwrap();
    assert_eq!(stock.trades()[0].splits.len(), 1);
    assert_eq!(
        stock.trades()[0].splits[0],
        Split { ratio: Ratio { numerator: 2, denominator: 1 }, datetime: day(2024, 3, 1) }
    );
    assert_eq!(stock.trades()[1].splits.len(), 0);
    assert_eq!(stock.quantity(&day(2024, 6, 1)), Ok(250));
    // A trade on the date of the split is not adjusted.
    let mut other = ledger();
    other.buy(100, money(10, 0), day(2024, 3, 1));
    other.split(Ratio { numerator: 2, denominator: 1 }, day(2024, 3, 1)).unwrap();
    assert_eq!(other.trades()[0].splits.len(), 0);
}

#[test]
fn splits_compose() {
    let mut stock = ledger();
    stock.buy(100, money(12, 0), day(2024, 1, 1));
    stock.split(Ratio { numerator: 2, denominator: 1 }, day(2024, 2, 1)).unwrap();
    stock.split(Ratio { numerator: 3, denominator: 1 }, day(2024, 3, 1)).unwrap();
    assert_eq!(stock.quantity(&day(2024, 2, 15)), Ok(200));
    assert_eq!(stock.quantity(&day(2024, 3, 15)), Ok(600));
    assert_eq!(stock.average_purchase_price(&day(2024, 3, 15)), Ok(2_000_000));
    // A reverse split of one for four.
    stock.split(Ratio { numerator: 1, denominator: 4 }, day(2024, 4, 1)).unwrap();
    assert_eq!(stock.quantity(&day(2024, 4, 15)), Ok(150));
    assert_eq!(stock.average_purchase_price(&day(2024, 4, 15)), Ok(8_000_000));
}

#[test]
fn split_with_a_zero_part_is_refused() {
    let mut stock = ledger();
    stock.buy(100, money(10, 0), day(2024, 1, 1));
    assert_eq!(
        stock.split(Ratio { numerator: 0, denominator: 1 }, day(2024, 2, 1)),
        Err(LedgerError::InvalidSplitRatio)
    );
    assert_eq!(
        stock.split(Ratio { numerator: 2, denominator: 0 }, day(2024, 2, 1)),
        Err(LedgerError::InvalidSplitRatio)
    );
    assert_eq!(stock.trades()[0].splits.len(), 0);
    assert!(!Ratio { numerator: 0, denominator: 0 }.is_positive());
    assert!(Ratio { numerator: 1, denominator: 7 }.is_positive());
}

#[test]
fn effective_trade_rounds_down() {
    let mut trade = Trade::new(TradeKind::Buy, 101, money(10, 0), day(2024, 1, 1));
    trade.splits.push(Split {
        ratio: Ratio { numerator: 3, denominator: 2 },
        datetime: day(2024, 2, 1),
    });
    assert!(trade.is_well_formed());
    // Before the split: as made.
    assert_eq!(
        trade.effective(&day(2024, 2, 1)),
        Some(Effective { quantity: 101, price: 10_000_000, value: 1_010_000_000 })
    );
    // After: 101 * 3 / 2 = 151 shares at 10 * 2 / 3 = 6.666666 each, standing
    // for 10 * 2 * 151 / 3 = 1006.666666.
    assert_eq!(
        trade.effective(&day(2024, 2, 2)),
        Some(Effective { quantity: 151, price: 6_666_666, value: 1_006_666_666 })
    );
    assert_eq!(trade.quantity(&day(2024, 2, 2)), Some(151));
    assert_eq!(trade.price(&day(2024, 2, 2)), Some(6_666_666));
}

#[test]
fn trade_beyond_the_limits_cannot_be_read() {
    let mut trade = Trade::new(TradeKind::Buy, 3_000_000_000, 1, day(2024, 1, 1));
    trade.splits.push(Split {
        ratio: Ratio { numerator: 2, denominator: 1 },
        datetime: day(2024, 2, 1),
    });
    assert_eq!(trade.quantity(&day(2024, 1, 2)), Some(3_000_000_000));
    assert_eq!(trade.quantity(&day(2024, 3, 1)), None);
    assert_eq!(trade.effective(&day(2024, 3, 1)), None);

    let mut dear = Trade::new(TradeKind::Buy, 10, u64::MAX, day(2024, 1, 1));
    dear.splits.push(Split {
        ratio: Ratio { numerator: 1, denominator: 2 },
        datetime: day(2024, 2, 1),
    });
    assert_eq!(dear.price(&day(2024, 3, 1)), None);

    let mut many = Trade::new(TradeKind::Buy, 1, 0, day(2024, 1, 1));
    many.splits.push(Split {
        ratio: Ratio { numerator: 65_536, denominator: 1 },
        datetime: day(2024, 2, 1),
    });
    many.splits.push(Split {
        ratio: Ratio { numerator: 65_536, denominator: 1 },
        datetime: day(2024, 2, 2),
    });
    assert_eq!(many.quantity(&day(2024, 2, 2)), Some(65_536));
    assert_eq!(many.quantity(&day(2024, 2, 3)), None);
}

#[test]
fn trade_with_a_zero_ratio_cannot_be_read_after_it() {
    let mut trade = Trade::new(TradeKind::Buy, 10, money(1, 0), day(2024, 1, 1));
    trade.splits.push(Split {
        ratio: Ratio { numerator: 1, denominator: 0 },
        datetime: day(2024, 2, 1),
    });
    assert!(!trade.is_well_formed());
    assert_eq!(trade.quantity(&day(2024, 2, 1)), Some(10));
    assert_eq!(trade.quantity(&day(2024, 2, 2)), None);
}

#[test]
fn adjustment_dated_before_its_trade_is_not_well_formed() {
    let mut trade = Trade::new(TradeKind::Buy, 10, money(1, 0), day(2024, 1, 1));
    trade.splits.push(Split {
        ratio: Ratio { numerator: 2, denominator: 1 },
        datetime: day(2024, 1, 1),
    });
    assert!(!trade.is_well_formed());
}

#[test]
fn buying_over_the_limit_breaks_the_replay() {
    let mut stock = ledger();
    stock.buy(u32::MAX, money(1, 0), day(2024, 1, 1));
    assert_eq!(stock.quantity(&day(2024, 1, 2)), Ok(u32::MAX));
    stock.buy(1, money(1, 0), day(2024, 1, 2));
    assert_eq!(stock.quantity(&day(2024, 1, 2)), Ok(u32::MAX));
    assert_eq!(stock.quantity(&day(2024, 1, 3)), Err(LedgerError::LedgerInvariantViolation));
    assert_eq!(
        stock.average_purchase_price(&day(2024, 1, 3)),
        Err(LedgerError::LedgerInvariantViolation)
    );
    assert_eq!(
        stock.sell(1, money(1, 0), day(2024, 1, 3)),
        Err(LedgerError::LedgerInvariantViolation)
    );
    assert_eq!(stock.trades().len(), 2);
}

#[test]
fn backdated_sell_can_break_the_replay() {
    let mut stock = ledger();
    stock.buy(100, money(10, 0), day(2024, 1, 1));
    assert!(stock.sell(100, money(10, 0), day(2024, 3, 1)).is_ok());
    // As of February the 100 shares are still there, so this sell is taken;
    // the sell of March then has nothing left to sell.
    assert!(stock.sell(100, money(10, 0), day(2024, 2, 1)).is_ok());
    assert_eq!(stock.quantity(&day(2024, 2, 15)), Ok(0));
    assert_eq!(stock.quantity(&day(2024, 3, 2)), Err(LedgerError::LedgerInvariantViolation));
}

#[test]
fn shares_are_counted_where_the_cost_is_lost() {
    let mut stock = ledger();
    stock.buy(10, money(10, 0), day(2024, 1, 1));
    stock.sell(10, money(10, 0), day(2024, 3, 1)).unwrap();
    stock.buy(10, money(10, 0), day(2024, 4, 1));
    stock.sell(10, money(10, 0), day(2024, 2, 1)).unwrap();
    // Ten bought and ten sold twice, ten bought again: none is left, though
    // the sell of March had nothing to sell.
    assert_eq!(stock.quantity(&day(2024, 5, 1)), Ok(0));
    assert_eq!(
        stock.average_purchase_price(&day(2024, 5, 1)),
        Err(LedgerError::LedgerInvariantViolation)
    );
    assert_eq!(stock.position(&day(2024, 5, 1)), Err(LedgerError::LedgerInvariantViolation));
    assert_eq!(stock.quantity(&day(2024, 3, 15)), Err(LedgerError::LedgerInvariantViolation));
    assert_eq!(stock.quantity(&day(2024, 2, 15)), Ok(0));
}

#[test]
fn trade_of_no_shares_is_not_well_formed() {
    let none = Trade::new(TradeKind::Buy, 0, money(1, 0), day(2024, 1, 1));
    assert!(!none.is_well_formed());
    let one = Trade::new(TradeKind::Buy, 1, money(1, 0), day(2024, 1, 1));
    assert!(one.is_well_formed());
    assert!(matches!(
        Stock::from_trades(String::from("EGIE3"), vec![one, none]),
        Err(LedgerError::LedgerInvariantViolation)
    ));
    let sold = Trade::new(TradeKind::Sell, 0, money(1, 0), day(2024, 1, 1));
    assert!(matches!(
        Stock::from_trades(String::from("EGIE3"), vec![sold]),
        Err(LedgerError::LedgerInvariantViolation)
    ));
}

#[test]
fn ledger_from_trades_checks_them() {
    let first = Trade::new(TradeKind::Buy, 10, money(1, 0), day(2024, 1, 1));
    let second = Trade::new(TradeKind::Sell, 5, money(2, 0), day(2024, 2, 1));
    let stock = Stock::from_trades(String::from("EGIE3"), vec![first, second]).unwrap();
    assert_eq!(stock.symbol(), "EGIE3");
    assert_eq!(stock.quantity(&day(2024, 3, 1)), Ok(5));

    let first = Trade::new(TradeKind::Buy, 10, money(1, 0), day(2024, 1, 1));
    let second = Trade::new(TradeKind::Sell, 5, money(2, 0), day(2024, 2, 1));
    assert!(matches!(
        Stock::from_trades(String::from("EGIE3"), vec![second, first]),
        Err(LedgerError::LedgerInvariantViolation)
    ));

    let mut bad = Trade::new(TradeKind::Buy, 10, money(1, 0), day(2024, 1, 1));
    bad.splits.push(Split {
        ratio: Ratio { numerator: 0, denominator: 1 },
        datetime: day(2024, 2, 1),
    });
    assert!(matches!(
        Stock::from_trades(String::from("EGIE3"), vec![bad]),
        Err(LedgerError::LedgerInvariantViolation)
    ));
}

#[test]
fn profit_of_a_trade_is_taken_over_the_average_at_its_date() {
    let mut stock = ledger();
    stock.buy(100, money(10, 0), day(2024, 1, 1));
    stock.buy(100, money(20, 0), day(2024, 2, 1));
    let cheap = Trade::new(TradeKind::Sell, 10, money(12, 0), day(2024, 1, 15));
    let dear = Trade::new(TradeKind::Sell, 10, money(12, 0), day(2024, 2, 15));
    assert_eq!(stock.calculate_profit(&cheap), Ok(20_000_000));
    assert_eq!(stock.calculate_profit(&dear), Ok(-30_000_000));
}

#[test]
fn holding_carries_the_cost_of_its_shares() {
    let mut stock = ledger();
    let date = day(2024, 2, 1);
    assert_eq!(stock.position(&date), Ok(Holding::empty()));
    stock.buy(3, 10, day(2024, 1, 1));
    assert_eq!(stock.position(&date), Ok(Holding { quantity: 3, cost: 30 }));
    stock.sell(1, 99, day(2024, 1, 2)).unwrap();
    assert_eq!(stock.position(&date), Ok(Holding { quantity: 2, cost: 20 }));
    assert_eq!(stock.sell(3, 99, day(2024, 1, 3)), Err(LedgerError::InsufficientShares));
    stock.buy(1, 5, day(2024, 1, 3));
    // 25 for three shares: the average is rounded down, the cost is not.
    assert_eq!(stock.position(&date), Ok(Holding { quantity: 3, cost: 25 }));
    assert_eq!(stock.average_purchase_price(&date), Ok(8));
    stock.sell(1, 99, day(2024, 1, 4)).unwrap();
    // Two thirds of 25, rounded down.
    assert_eq!(stock.position(&date), Ok(Holding { quantity: 2, cost: 16 }));
    assert_eq!(stock.average_purchase_price(&date), Ok(8));
    stock.sell(2, 99, day(2024, 1, 5)).unwrap();
    assert_eq!(stock.position(&date), Ok(Holding::empty()));
}

#[test]
fn error_messages() {
    assert_eq!(LedgerError::InsufficientShares.message(), "Not enough shares to sell");
    assert_eq!(LedgerError::InvalidSplitRatio.message(), "Split ratio must be positive");
    assert_eq!(LedgerError::LedgerInvariantViolation.message(), "Ledger cannot be replayed");
}

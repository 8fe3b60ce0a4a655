use stocks::error::LedgerError;
use stocks::portfolio::{
    buy_keyed, find_keyed, profit_summary, sell_keyed, split_keyed, stock_keyed, Portfolio,
};
use stocks::stock::Stock;
use stocks::summary::MonthSummary;
use stocks::timestamp::Timestamp;
use stocks::trade::Ratio;
use time::{Date, Month};

fn day(year: i32, month: u8, day: u8) -> Timestamp {
    let date = Date::from_calendar_date(year, Month::try_from(month).unwrap(), day).unwrap();
    Timestamp::new(date.midnight().assume_utc().unix_timestamp_nanos(), 0).unwrap()
}

fn money(units: u64, cents: u64) -> u64 {
    units * 1_000_000 + cents * 10_000
}

#[test]
fn new_portfolio_has_no_ledgers() {
    let portfolio = Portfolio::new();
    assert!(portfolio.stocks().is_empty());
    assert!(portfolio.stock("BBAS3").is_none());
}

#[test]
fn buy_opens_a_ledger_once() {
    let mut portfolio = Portfolio::new();
    portfolio.buy("BBAS3", 100, money(10, 0), day(2024, 1, 1));
    portfolio.buy("BBAS3", 200, money(15, 0), day(2024, 2, 1));
    portfolio.buy("EGIE3", 10, money(40, 0), day(2024, 2, 1));
    assert_eq!(portfolio.stocks().len(), 2);
    let stock = portfolio.stock("BBAS3").unwrap();
    assert_eq!(stock.symbol(), "BBAS3");
    assert_eq!(stock.quantity(&day(2024, 3, 1)), Ok(300));
    assert_eq!(stock.average_purchase_price(&day(2024, 3, 1)), Ok(13_333_333));
    assert_eq!(portfolio.stock("EGIE3").unwrap().quantity(&day(2024, 3, 1)), Ok(10));
}

#[test]
fn symbols_are_found_whatever_their_case() {
    let mut portfolio = Portfolio::new();
    portfolio.buy("bbas3", 100, money(10, 0), day(2024, 1, 1));
    portfolio.buy("Bbas3", 50, money(10, 0), day(2024, 1, 2));
    assert_eq!(portfolio.stocks().len(), 1);
    assert_eq!(portfolio.stocks()[0].symbol(), "BBAS3");
    assert_eq!(portfolio.stock("BBAS3").unwrap().quantity(&day(2024, 2, 1)), Ok(150));
    assert_eq!(portfolio.stock("bbas3").unwrap().quantity(&day(2024, 2, 1)), Ok(150));
    assert_eq!(portfolio.sell("bBaS3", 150, money(11, 0), day(2024, 2, 1)), Ok(150_000_000));
}

#[test]
fn sell_returns_the_profit() {
    let mut portfolio = Portfolio::new();
    portfolio.buy("BBAS3", 100, money(10, 0), day(2024, 1, 1));
    portfolio.buy("BBAS3", 200, money(15, 0), day(2024, 2, 1));
    let profit = portfolio.sell("BBAS3", 200, money(20, 0), day(2024, 3, 15)).unwrap();
    assert_eq!(profit, (20_000_000 - 13_333_333) * 200);
    let stock = portfolio.stock("BBAS3").unwrap();
    assert_eq!(stock.quantity(&day(2024, 4, 1)), Ok(100));
    assert_eq!(stock.average_purchase_price(&day(2024, 4, 1)), Ok(13_333_333));
    // A loss is a negative profit.
    assert_eq!(portfolio.sell("BBAS3", 10, money(3, 33), day(2024, 5, 1)), Ok(-100_033_330));
}

#[test]
fn sell_of_an_unknown_symbol_is_refused() {
    let mut portfolio = Portfolio::new();
    assert_eq!(
        portfolio.sell("BBAS3", 1, money(10, 0), day(2024, 1, 1)),
        Err(LedgerError::InsufficientShares)
    );
    assert!(portfolio.stocks().is_empty());
}

#[test]
fn sell_of_more_than_held_is_refused_and_records_nothing() {
    let mut portfolio = Portfolio::new();
    portfolio.buy("BBAS3", 100, money(10, 0), day(2024, 1, 1));
    assert_eq!(
        portfolio.sell("BBAS3", 150, money(10, 0), day(2024, 2, 1)),
        Err(LedgerError::InsufficientShares)
    );
    assert_eq!(portfolio.stock("BBAS3").unwrap().trades().len(), 1);
    assert_eq!(portfolio.stock("BBAS3").unwrap().quantity(&day(2024, 3, 1)), Ok(100));
}

#[test]
fn closed_position_keeps_its_ledger() {
    let mut portfolio = Portfolio::new();
    portfolio.buy("BBAS3", 100, money(10, 0), day(2024, 1, 1));
    assert_eq!(portfolio.sell("BBAS3", 100, money(12, 0), day(2024, 2, 1)), Ok(200_000_000));
    let stock = portfolio.stock("BBAS3").unwrap();
    assert_eq!(stock.trades().len(), 2);
    assert_eq!(stock.quantity(&day(2024, 3, 1)), Ok(0));
    assert_eq!(stock.average_purchase_price(&day(2024, 3, 1)), Ok(0));
    // With history but no shares, a sell is short of shares.
    assert_eq!(
        portfolio.sell("BBAS3", 1, money(12, 0), day(2024, 3, 1)),
        Err(LedgerError::InsufficientShares)
    );
}

#[test]
fn split_goes_to_the_ledger_of_its_symbol() {
    let mut portfolio = Portfolio::new();
    portfolio.buy("BBAS3", 100, money(10, 0), day(2024, 1, 1));
    portfolio.buy("EGIE3", 100, money(10, 0), day(2024, 1, 1));
    let two_for_one = Ratio { numerator: 2, denominator: 1 };
    assert_eq!(portfolio.split("bbas3", two_for_one, day(2024, 2, 1)), Ok(()));
    assert_eq!(portfolio.stock("BBAS3").unwrap().quantity(&day(2024, 3, 1)), Ok(200));
    assert_eq!(
        portfolio.stock("BBAS3").unwrap().average_purchase_price(&day(2024, 3, 1)),
        Ok(5_000_000)
    );
    assert_eq!(portfolio.stock("EGIE3").unwrap().quantity(&day(2024, 3, 1)), Ok(100));
}

#[test]
fn split_of_an_unknown_symbol_opens_its_ledger() {
    let mut portfolio = Portfolio::new();
    let two_for_one = Ratio { numerator: 2, denominator: 1 };
    assert_eq!(portfolio.split("BBAS3", two_for_one, day(2024, 2, 1)), Ok(()));
    assert_eq!(portfolio.stocks().len(), 1);
    assert!(portfolio.stock("BBAS3").unwrap().trades().is_empty());
}

#[test]
fn split_with_a_zero_part_changes_nothing() {
    let mut portfolio = Portfolio::new();
    assert_eq!(
        portfolio.split("BBAS3", Ratio { numerator: 0, denominator: 1 }, day(2024, 2, 1)),
        Err(LedgerError::InvalidSplitRatio)
    );
    assert!(portfolio.stocks().is_empty());
    portfolio.buy("BBAS3", 100, money(10, 0), day(2024, 1, 1));
    assert_eq!(
        portfolio.split("BBAS3", Ratio { numerator: 1, denominator: 0 }, day(2024, 2, 1)),
        Err(LedgerError::InvalidSplitRatio)
    );
    assert_eq!(portfolio.stock("BBAS3").unwrap().quantity(&day(2024, 3, 1)), Ok(100));
}

#[test]
fn profit_by_month_sums_the_sells_of_the_year() {
    let mut portfolio = Portfolio::new();
    portfolio.buy("BBAS3", 100, money(10, 0), day(2023, 6, 1));
    portfolio.buy("EGIE3", 100, money(40, 0), day(2023, 6, 1));
    portfolio.sell("BBAS3", 10, money(12, 0), day(2023, 12, 20)).unwrap();
    portfolio.sell("BBAS3", 20, money(15, 0), day(2024, 1, 10)).unwrap();
    portfolio.sell("EGIE3", 50, money(30, 0), day(2024, 1, 20)).unwrap();
    portfolio.sell("BBAS3", 30, money(9, 0), day(2024, 12, 31)).unwrap();
    portfolio.buy("BBAS3", 1000, money(1, 0), day(2024, 3, 1));

    let months = portfolio.profit_by_month(2024).unwrap();
    // January: 20 * 15 + 50 * 30 sold; 20 * (15 - 10) + 50 * (30 - 40) profit.
    assert_eq!(
        months[0],
        MonthSummary { profit: 100_000_000 - 500_000_000, sold_amount: 1_800_000_000 }
    );
    for month in 1..11 {
        assert_eq!(months[month], MonthSummary { profit: 0, sold_amount: 0 });
    }
    // December: the average is (70 * 10 + 1000 * 1) / 1070 = 1.588785.
    assert_eq!(
        months[11],
        MonthSummary { profit: 30 * (9_000_000 - 1_588_785), sold_amount: 270_000_000 }
    );

    let earlier = portfolio.profit_by_month(2023).unwrap();
    assert_eq!(earlier[11], MonthSummary { profit: 20_000_000, sold_amount: 120_000_000 });
    assert_eq!(earlier[0], MonthSummary { profit: 0, sold_amount: 0 });

    let none = portfolio.profit_by_month(2022).unwrap();
    assert_eq!(none, [MonthSummary { profit: 0, sold_amount: 0 }; 12]);
}

#[test]
fn profit_by_month_does_not_depend_on_the_order_of_buys() {
    let buys = [
        ("BBAS3", 100u32, money(10, 0), day(2024, 1, 1)),
        ("BBAS3", 200, money(15, 0), day(2024, 2, 1)),
        ("EGIE3", 50, money(40, 0), day(2024, 1, 15)),
        ("BBAS3", 10, money(11, 50), day(2023, 12, 1)),
    ];
    let orders: [[usize; 4]; 4] = [[0, 1, 2, 3], [3, 2, 1, 0], [2, 0, 3, 1], [1, 3, 0, 2]];
    let mut results = Vec::new();
    for order in orders {
        let mut portfolio = Portfolio::new();
        for i in order {
            let (symbol, quantity, price, datetime) = buys[i];
            portfolio.buy(symbol, quantity, price, datetime);
        }
        portfolio.sell("BBAS3", 150, money(20, 0), day(2024, 3, 15)).unwrap();
        portfolio.sell("EGIE3", 50, money(35, 0), day(2024, 4, 1)).unwrap();
        results.push(portfolio.profit_by_month(2024).unwrap());
    }
    assert!(results.iter().all(|result| *result == results[0]));
    assert_eq!(results[0][2].sold_amount, 3_000_000_000);
    assert_eq!(results[0][3], MonthSummary { profit: -250_000_000, sold_amount: 1_750_000_000 });
}

#[test]
fn profit_by_month_of_a_broken_ledger_is_an_error() {
    let mut portfolio = Portfolio::new();
    portfolio.buy("BBAS3", 100, money(10, 0), day(2024, 1, 1));
    portfolio.sell("BBAS3", 100, money(10, 0), day(2024, 3, 1)).unwrap();
    portfolio.sell("BBAS3", 100, money(10, 0), day(2024, 2, 1)).unwrap();
    // Up to the sells of February and March the ledger can be replayed, but
    // not up to one dated after them.
    portfolio.buy("BBAS3", 100, money(10, 0), day(2024, 4, 1));
    assert!(portfolio.profit_by_month(2024).is_ok());
    // As many shares were sold as were bought, so none is left to sell.
    assert_eq!(
        portfolio.sell("BBAS3", 1, money(10, 0), day(2024, 5, 1)),
        Err(LedgerError::InsufficientShares)
    );
    // With one more share bought there is one to sell, but no average cost
    // for a sell of May: step by step, the sell of March sells what is no
    // longer there.
    portfolio.buy("BBAS3", 1, money(10, 0), day(2024, 4, 2));
    assert_eq!(
        portfolio.sell("BBAS3", 1, money(10, 0), day(2024, 5, 1)),
        Err(LedgerError::LedgerInvariantViolation)
    );
    assert!(portfolio.profit_by_month(2023).is_ok());
}

#[test]
fn tax_is_due_above_the_exempt_sales_on_a_profit() {
    let taxed = MonthSummary { profit: 1_000_000_000, sold_amount: 20_000_000_001 };
    assert_eq!(taxed.tax(), 150_000_000);
    let boundary = MonthSummary { profit: 1_000_000_000, sold_amount: 20_000_000_000 };
    assert_eq!(boundary.tax(), 0);
    let loss = MonthSummary { profit: -1_000_000_000, sold_amount: 50_000_000_000 };
    assert_eq!(loss.tax(), 0);
    let even = MonthSummary { profit: 0, sold_amount: 50_000_000_000 };
    assert_eq!(even.tax(), 0);
    let odd = MonthSummary { profit: 7, sold_amount: 50_000_000_000 };
    assert_eq!(odd.tax(), 1);
    let large = MonthSummary { profit: i128::MAX, sold_amount: u128::MAX };
    assert_eq!(large.tax(), i128::MAX / 100 * 15 + (i128::MAX % 100) * 15 / 100);
}

#[test]
fn month_summary_starts_empty() {
    let start = MonthSummary::new();
    assert_eq!(start, MonthSummary { profit: 0, sold_amount: 0 });
    assert_eq!(MonthSummary::default(), start);
    assert_eq!(start.tax(), 0);
}

#[test]
fn portfolio_from_stocks_checks_the_symbols() {
    let mut first = Stock::new(String::from("BBAS3"));
    first.buy(10, money(1, 0), day(2024, 1, 1));
    let second = Stock::new(String::from("EGIE3"));
    let portfolio = Portfolio::from_stocks(vec![first, second]).unwrap();
    assert_eq!(portfolio.stocks().len(), 2);
    assert_eq!(portfolio.stock("BBAS3").unwrap().quantity(&day(2024, 2, 1)), Ok(10));

    let twice = vec![Stock::new(String::from("BBAS3")), Stock::new(String::from("BBAS3"))];
    assert!(matches!(
        Portfolio::from_stocks(twice),
        Err(LedgerError::LedgerInvariantViolation)
    ));
}

#[test]
fn tax_on_the_months_of_a_year() {
    let mut portfolio = Portfolio::new();
    portfolio.buy("BBAS3", 3000, money(10, 0), day(2024, 1, 1));
    // 1000 * 21 = 21000 sold at a profit of 1000 * (21 - 10) = 11000.
    portfolio.sell("BBAS3", 1000, money(21, 0), day(2024, 2, 10)).unwrap();
    // 1000 * 20 = 20000 sold, not above the exempt amount.
    portfolio.sell("BBAS3", 1000, money(20, 0), day(2024, 3, 10)).unwrap();
    // 1000 * 25 = 25000 sold on another ledger at a loss.
    portfolio.buy("EGIE3", 1000, money(40, 0), day(2024, 1, 1));
    portfolio.sell("EGIE3", 1000, money(25, 0), day(2024, 4, 10)).unwrap();

    let months = portfolio.profit_by_month(2024).unwrap();
    assert_eq!(months[1].sold_amount, 21_000_000_000);
    assert_eq!(months[1].profit, 11_000_000_000);
    assert_eq!(months[1].tax(), 1_650_000_000);
    assert!((months[1].tax() as f64 - months[1].profit as f64 * 0.15).abs() < 1.0);
    assert_eq!(months[2].sold_amount, 20_000_000_000);
    assert_eq!(months[2].profit, 10_000_000_000);
    assert_eq!(months[2].tax(), 0);
    assert_eq!(months[3].sold_amount, 25_000_000_000);
    assert_eq!(months[3].profit, -15_000_000_000);
    assert_eq!(months[3].tax(), 0);
    assert_eq!(months[0].tax(), 0);
}

#[test]
fn test_portfolio_buy_and_sell() {
    let mut portfolio = Portfolio::default();
    let bbas3 = "BBAS3";
    let after = day(2024, 12, 31);

    portfolio.buy(bbas3, 100, money(100, 0), day(2024, 1, 1));
    portfolio.buy(bbas3, 200, money(150, 0), day(2024, 1, 2));

    assert_eq!(portfolio.stock(bbas3).unwrap().symbol(), bbas3);
    assert_eq!(portfolio.stock(bbas3).unwrap().quantity(&after), Ok(300));

    portfolio.sell(bbas3, 200, money(50, 0), day(2024, 1, 3)).unwrap();
    assert_eq!(portfolio.stock(bbas3).unwrap().quantity(&after), Ok(100));

    // If we try to sell more than we have we get an error
    assert_eq!(
        portfolio.sell(bbas3, 150, money(50, 0), day(2024, 1, 4)).err().unwrap(),
        LedgerError::InsufficientShares
    );

    // Now we are going to close the position in BBAS3: the ledger stays, and
    // holds no shares.
    portfolio.sell(bbas3, 100, money(50, 0), day(2024, 1, 5)).unwrap();
    assert_eq!(portfolio.stock(bbas3).unwrap().quantity(&after), Ok(0));
    assert_eq!(portfolio.stock(bbas3).unwrap().trades().len(), 4);

    // If we try to sell something that we don't have we get the same error
    assert_eq!(
        portfolio.sell(bbas3, 100, money(50, 0), day(2024, 1, 6)).err().unwrap(),
        LedgerError::InsufficientShares
    );
    assert_eq!(portfolio.stock(bbas3).unwrap().quantity(&after), Ok(0));
    assert_eq!(
        portfolio.sell("EGIE3", 100, money(50, 0), day(2024, 1, 6)).err().unwrap(),
        LedgerError::InsufficientShares
    );
    assert!(portfolio.stock("EGIE3").is_none());
}

#[test]
fn owned_ledgers_hold_shares_at_the_date() {
    let mut portfolio = Portfolio::new();
    portfolio.buy("BBAS3", 100, money(10, 0), day(2024, 1, 1));
    portfolio.buy("EGIE3", 50, money(40, 0), day(2024, 2, 1));
    portfolio.buy("ITSA4", 10, money(9, 0), day(2024, 3, 1));
    portfolio.sell("BBAS3", 100, money(12, 0), day(2024, 4, 1)).unwrap();

    let symbols = |date| -> Vec<String> {
        portfolio.owned(&date).unwrap().iter().map(|stock| stock.symbol().clone()).collect()
    };
    assert_eq!(symbols(day(2024, 1, 1)), Vec::<String>::new());
    assert_eq!(symbols(day(2024, 1, 2)), vec!["BBAS3"]);
    assert_eq!(symbols(day(2024, 3, 2)), vec!["BBAS3", "EGIE3", "ITSA4"]);
    assert_eq!(symbols(day(2024, 4, 2)), vec!["EGIE3", "ITSA4"]);

    portfolio.buy("EGIE3", u32::MAX, money(1, 0), day(2024, 5, 1));
    assert!(matches!(
        portfolio.owned(&day(2024, 6, 1)),
        Err(LedgerError::LedgerInvariantViolation)
    ));
    assert!(portfolio.owned(&day(2024, 5, 1)).is_ok());
}

#[test]
fn profit_summary_adds_the_tax_to_each_month() {
    let mut portfolio = Portfolio::new();
    portfolio.buy("BBAS3", 3000, money(10, 0), day(2024, 1, 1));
    portfolio.sell("BBAS3", 1000, money(21, 0), day(2024, 2, 10)).unwrap();
    portfolio.sell("BBAS3", 1000, money(20, 0), day(2024, 3, 10)).unwrap();

    let months = portfolio.profit_by_month(2024).unwrap();
    let rows = profit_summary(&portfolio, 2024).unwrap();
    for month in 0..12 {
        assert_eq!(rows[month].profit, months[month].profit);
        assert_eq!(rows[month].sold_amount, months[month].sold_amount);
        assert_eq!(rows[month].tax, months[month].tax());
    }
    assert_eq!(rows[1].tax, 1_650_000_000);
    assert_eq!(rows[2].tax, 0);

    portfolio.buy("BBAS3", u32::MAX, money(10, 0), day(2024, 4, 1));
    portfolio.sell("BBAS3", 1, money(10, 0), day(2024, 5, 1)).unwrap_err();
    assert!(profit_summary(&portfolio, 2024).is_ok());
}

#[test]
fn buys_of_the_same_instant_in_either_order() {
    let when = day(2024, 1, 10);
    let mut results = Vec::new();
    for first in [true, false] {
        let mut portfolio = Portfolio::new();
        portfolio.buy("BBAS3", 7, money(9, 99), day(2024, 1, 1));
        portfolio.sell("BBAS3", 3, money(11, 0), day(2024, 1, 5)).unwrap();
        if first {
            portfolio.buy("BBAS3", 100, money(10, 0), when);
            portfolio.buy("BBAS3", 33, money(12, 50), when);
        } else {
            portfolio.buy("BBAS3", 33, money(12, 50), when);
            portfolio.buy("BBAS3", 100, money(10, 0), when);
        }
        let quantities: Vec<u32> =
            portfolio.stock("BBAS3").unwrap().trades().iter().map(|t| t.quantity).collect();
        assert_eq!(quantities, if first { vec![7, 3, 100, 33] } else { vec![7, 3, 33, 100] });
        portfolio.sell("BBAS3", 50, money(13, 0), day(2024, 2, 1)).unwrap();
        portfolio.sell("BBAS3", 87, money(8, 0), day(2024, 3, 1)).unwrap();
        results.push((
            portfolio.profit_by_month(2024).unwrap(),
            portfolio.stock("BBAS3").unwrap().position(&day(2024, 1, 11)),
        ));
    }
    assert_eq!(results[0], results[1]);
    assert_eq!(results[0].0[1].sold_amount, 650_000_000);
}

#[test]
fn portfolio_from_stocks_refuses_a_symbol_that_is_not_upper_case() {
    let lower = vec![Stock::new(String::from("bbas3"))];
    assert!(matches!(
        Portfolio::from_stocks(lower),
        Err(LedgerError::LedgerInvariantViolation)
    ));
    let mixed = vec![Stock::new(String::from("BBAS3")), Stock::new(String::from("Egie3"))];
    assert!(matches!(
        Portfolio::from_stocks(mixed),
        Err(LedgerError::LedgerInvariantViolation)
    ));
    let upper = vec![Stock::new(String::from("BBAS3")), Stock::new(String::from("EGIE3"))];
    let portfolio = Portfolio::from_stocks(upper).unwrap();
    // Every ledger is found, whatever the case of the symbol asked for.
    assert_eq!(portfolio.stock("bbas3").unwrap().symbol(), "BBAS3");
    assert_eq!(portfolio.stock("egie3").unwrap().symbol(), "EGIE3");
}

#[test]
fn ledgers_by_key() {
    let mut stocks: Vec<Stock> = Vec::new();
    let upper = String::from("BBAS3");
    let lower = String::from("bbas3");
    buy_keyed(&mut stocks, upper.clone(), 100, money(10, 0), day(2024, 1, 1));
    buy_keyed(&mut stocks, upper.clone(), 200, money(15, 0), day(2024, 2, 1));
    // A key is taken as it is: another case is another key.
    buy_keyed(&mut stocks, lower.clone(), 7, money(1, 0), day(2024, 1, 1));
    assert_eq!(stocks.len(), 2);
    assert_eq!(find_keyed(&stocks, &upper), Some(0));
    assert_eq!(find_keyed(&stocks, &lower), Some(1));
    assert_eq!(find_keyed(&stocks, &String::from("EGIE3")), None);
    assert!(stock_keyed(&stocks, &String::from("EGIE3")).is_none());
    let after = day(2024, 3, 1);
    assert_eq!(stock_keyed(&stocks, &upper).unwrap().quantity(&after), Ok(300));
    assert_eq!(stock_keyed(&stocks, &lower).unwrap().quantity(&after), Ok(7));

    assert_eq!(
        sell_keyed(&mut stocks, &upper, 200, money(20, 0), day(2024, 3, 15)),
        Ok((20_000_000 - 13_333_333) * 200)
    );
    assert_eq!(
        sell_keyed(&mut stocks, &lower, 8, money(20, 0), day(2024, 3, 15)),
        Err(LedgerError::InsufficientShares)
    );
    assert_eq!(
        sell_keyed(&mut stocks, &String::from("EGIE3"), 1, money(20, 0), day(2024, 3, 15)),
        Err(LedgerError::InsufficientShares)
    );
    assert_eq!(stocks.len(), 2);
    assert_eq!(stock_keyed(&stocks, &upper).unwrap().trades().len(), 3);
    assert_eq!(stock_keyed(&stocks, &lower).unwrap().trades().len(), 1);

    let two_for_one = Ratio { numerator: 2, denominator: 1 };
    assert_eq!(split_keyed(&mut stocks, lower.clone(), two_for_one, day(2024, 4, 1)), Ok(()));
    assert_eq!(stock_keyed(&stocks, &lower).unwrap().quantity(&day(2024, 5, 1)), Ok(14));
    assert_eq!(stock_keyed(&stocks, &upper).unwrap().quantity(&day(2024, 5, 1)), Ok(100));
    assert_eq!(
        split_keyed(&mut stocks, upper, Ratio { numerator: 0, denominator: 1 }, day(2024, 4, 1)),
        Err(LedgerError::InvalidSplitRatio)
    );
    assert_eq!(
        split_keyed(&mut stocks, String::from("EGIE3"), two_for_one, day(2024, 4, 1)),
        Ok(())
    );
    assert_eq!(stocks.len(), 3);
}

use stocks::summary::{profit_summary_rows, profit_summary_totals, MonthSummary, ProfitSummaryData};
use stocks::valuation::{summary_totals, PricedStock, SummaryData, SummaryTotals};

fn priced(symbol: &str, quantity: u32, average: u64, price: u64, last: u64) -> PricedStock {
    PricedStock {
        symbol: String::from(symbol),
        quantity,
        average_price: average * 1_000_000,
        price: price * 1_000_000,
        last_price: last * 1_000_000,
    }
}

#[test]
fn holding_that_rose() {
    let data = SummaryData::from(priced("BBAS3", 100, 10, 12, 11));
    assert_eq!(data.name, "BBAS3");
    assert_eq!(data.quantity, 100);
    assert_eq!(data.current_price, 12_000_000);
    assert_eq!(data.average_price, 10_000_000);
    assert_eq!(data.current_value, 1_200_000_000);
    assert_eq!(data.last_value, 1_100_000_000);
    assert_eq!(data.purchase_cost, 1_000_000_000);
    assert_eq!(data.change, 100_000_000);
    // (1200 / 1100 - 1) * 100 = 9.090909...
    assert_eq!(data.change_percentage, Some(9_090_909));
    assert_eq!(data.profit, 200_000_000);
    assert_eq!(data.profit_percentage, Some(20_000_000));
}

#[test]
fn holding_that_fell() {
    let data = SummaryData::from(priced("BBAS3", 100, 10, 9, 11));
    assert_eq!(data.change, -200_000_000);
    // (900 / 1100 - 1) * 100 = -18.181818...
    assert_eq!(data.change_percentage, Some(-18_181_818));
    assert_eq!(data.profit, -100_000_000);
    assert_eq!(data.profit_percentage, Some(-10_000_000));
}

#[test]
fn percentage_over_nothing_is_none() {
    let data = SummaryData::from(priced("BBAS3", 0, 10, 12, 11));
    assert_eq!(data.current_value, 0);
    assert_eq!(data.change, 0);
    assert_eq!(data.change_percentage, None);
    assert_eq!(data.profit_percentage, None);
    let free = SummaryData::from(priced("BBAS3", 10, 0, 12, 0));
    assert_eq!(free.profit, 120_000_000);
    assert_eq!(free.profit_percentage, None);
    assert_eq!(free.change_percentage, None);
}

fn percentage(value: u64, base: u64) -> Option<i128> {
    let stock = PricedStock {
        symbol: String::new(),
        quantity: 1,
        average_price: 0,
        price: value,
        last_price: base,
    };
    SummaryData::from(stock).change_percentage
}

#[test]
fn percentages_round_toward_zero() {
    assert_eq!(percentage(3, 3), Some(0));
    assert_eq!(percentage(4, 3), Some(33_333_333));
    assert_eq!(percentage(2, 3), Some(-33_333_333));
    assert_eq!(percentage(0, 3), Some(-100_000_000));
    assert_eq!(percentage(6, 3), Some(100_000_000));
    assert_eq!(percentage(1, 0), None);
    assert_eq!(percentage(0, 0), None);
    assert_eq!(percentage(u64::MAX, 1), Some((u64::MAX as i128 - 1) * 100_000_000));
    assert_eq!(percentage(0, u64::MAX), Some(-100_000_000));
}

#[test]
fn totals_of_a_summary() {
    let data = vec![
        SummaryData::from(priced("BBAS3", 100, 10, 12, 11)),
        SummaryData::from(priced("EGIE3", 10, 50, 40, 45)),
    ];
    assert_eq!(
        summary_totals(&data),
        Some(SummaryTotals {
            current_value: 1_600_000_000,
            change: 50_000_000,
            // (1600 / 1550 - 1) * 100 = 3.225806...
            change_percentage: Some(3_225_806),
            profit: 100_000_000,
            // (1600 / 1500 - 1) * 100 = 6.666666...
            profit_percentage: Some(6_666_666),
            last_value: 1_550_000_000,
            purchase_cost: 1_500_000_000,
        })
    );
    assert_eq!(
        summary_totals(&Vec::new()),
        Some(SummaryTotals {
            current_value: 0,
            change: 0,
            change_percentage: None,
            profit: 0,
            profit_percentage: None,
            last_value: 0,
            purchase_cost: 0,
        })
    );
}

#[test]
fn totals_beyond_the_limit_are_none() {
    let mut large = SummaryData::from(priced("BBAS3", 1, 1, 1, 1));
    large.current_value = 1 << 100;
    assert!(summary_totals(&vec![large]).is_some());
    let mut larger = SummaryData::from(priced("BBAS3", 1, 1, 1, 1));
    larger.last_value = (1 << 100) + 1;
    assert_eq!(summary_totals(&vec![larger]), None);
    let mut one = SummaryData::from(priced("BBAS3", 1, 1, 1, 1));
    one.purchase_cost = 1 << 100;
    let two = SummaryData::from(priced("EGIE3", 1, 1, 1, 1));
    assert_eq!(summary_totals(&vec![one, two]), None);
}

fn year() -> [MonthSummary; 12] {
    let mut months = [MonthSummary::new(); 12];
    months[1] = MonthSummary { profit: 11_000_000_000, sold_amount: 21_000_000_000 };
    months[2] = MonthSummary { profit: 10_000_000_000, sold_amount: 20_000_000_000 };
    months[3] = MonthSummary { profit: -15_000_000_000, sold_amount: 25_000_000_000 };
    months
}

#[test]
fn rows_of_a_profit_summary() {
    let rows = profit_summary_rows(&year());
    assert_eq!(rows[0], ProfitSummaryData { profit: 0, sold_amount: 0, tax: 0 });
    assert_eq!(
        rows[1],
        ProfitSummaryData {
            profit: 11_000_000_000,
            sold_amount: 21_000_000_000,
            tax: 1_650_000_000
        }
    );
    assert_eq!(
        rows[2],
        ProfitSummaryData { profit: 10_000_000_000, sold_amount: 20_000_000_000, tax: 0 }
    );
    assert_eq!(
        rows[3],
        ProfitSummaryData { profit: -15_000_000_000, sold_amount: 25_000_000_000, tax: 0 }
    );
}

#[test]
fn totals_of_a_profit_summary() {
    assert_eq!(
        profit_summary_totals(&year()),
        Some(ProfitSummaryData {
            profit: 6_000_000_000,
            sold_amount: 66_000_000_000,
            tax: 1_650_000_000
        })
    );
    let mut months = year();
    months[5] = MonthSummary { profit: i128::MAX, sold_amount: 0 };
    assert_eq!(profit_summary_totals(&months), None);
    let mut months = year();
    months[5] = MonthSummary { profit: i128::MIN, sold_amount: 0 };
    assert_eq!(profit_summary_totals(&months), None);
    let mut months = year();
    months[5] = MonthSummary { profit: 0, sold_amount: u128::MAX };
    assert_eq!(profit_summary_totals(&months), None);
    let mut months = [MonthSummary::new(); 12];
    months[0] = MonthSummary { profit: i128::MIN + 1, sold_amount: 0 };
    months[11] = MonthSummary { profit: i128::MAX, sold_amount: 0 };
    // The largest gain and the largest loss are both within the limit.
    assert_eq!(
        profit_summary_totals(&months),
        Some(ProfitSummaryData { profit: 0, sold_amount: 0, tax: 0 })
    );
}

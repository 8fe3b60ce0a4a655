//! What a holding is worth at a quoted price, and how that compares with the
//! last close and with what the holding cost.

use vstd::prelude::*;

verus! {

/// The largest total of money that a summary of holdings carries, in
/// millionths of the currency unit.
pub const VALUE_LIMIT: u128 = 0x10_0000_0000_0000_0000_0000_0000;

/// One hundred percent, in millionths of a percent.
pub const HUNDRED_PERCENT: u128 = 100_000_000;

/// A holding with its quotes: the shares held, their average cost, the
/// current price and the price at the last close, each price in millionths
/// of the currency unit.
#[derive(Debug)]
pub struct PricedStock {
    pub symbol: String,
    pub quantity: u32,
    pub average_price: u64,
    pub price: u64,
    pub last_price: u64,
}

/// What a holding is worth. Amounts are in millionths of the currency unit,
/// percentages in millionths of a percent; a percentage over nothing is
/// `None`.
#[derive(Debug)]
pub struct SummaryData {
    pub name: String,
    pub quantity: u32,
    pub current_price: u64,
    pub current_value: u128,
    pub change: i128,
    pub change_percentage: Option<i128>,
    pub average_price: u64,
    pub profit: i128,
    pub profit_percentage: Option<i128>,
    pub last_value: u128,
    pub purchase_cost: u128,
}

/// The totals of a summary of holdings.
#[derive(Clone, Copy, Debug, PartialEq, Eq, Structural)]
pub struct SummaryTotals {
    pub current_value: u128,
    pub change: i128,
    pub change_percentage: Option<i128>,
    pub profit: i128,
    pub profit_percentage: Option<i128>,
    pub last_value: u128,
    pub purchase_cost: u128,
}

/// By how much `value` is over `base`, as a percentage of `base` in
/// millionths of a percent, rounded toward zero: `(value / base - 1) * 100`.
/// `None` where `base` is zero.
pub open spec fn percentage_over(value: int, base: int) -> Option<int> {
    if base == 0 {
        None
    } else if value >= base {
        Some((value - base) * HUNDRED_PERCENT / base)
    } else {
        Some(-((base - value) * HUNDRED_PERCENT / base))
    }
}

/// The sum of the current values of the first `n` holdings.
pub open spec fn total_current(data: Seq<SummaryData>, n: int) -> int
    decreases n,
{
    if n <= 0 {
        0
    } else {
        total_current(data, n - 1) + data[n - 1].current_value
    }
}

/// The sum of the values at the last close of the first `n` holdings.
pub open spec fn total_last(data: Seq<SummaryData>, n: int) -> int
    decreases n,
{
    if n <= 0 {
        0
    } else {
        total_last(data, n - 1) + data[n - 1].last_value
    }
}

/// The sum of the costs of the first `n` holdings.
pub open spec fn total_cost(data: Seq<SummaryData>, n: int) -> int
    decreases n,
{
    if n <= 0 {
        0
    } else {
        total_cost(data, n - 1) + data[n - 1].purchase_cost
    }
}

/// The sums grow with the number of holdings that they are taken over.
pub proof fn lemma_totals_grow(data: Seq<SummaryData>, i: int, n: int)
    requires
        0 <= i <= n,
    ensures
        0 <= total_current(data, i) <= total_current(data, n),
        0 <= total_last(data, i) <= total_last(data, n),
        0 <= total_cost(data, i) <= total_cost(data, n),
    decreases n,
{
    if n > 0 {
        if i < n {
            lemma_totals_grow(data, i, n - 1);
        } else {
            lemma_totals_grow(data, i - 1, n - 1);
        }
    }
}

/// By how much `value` is over `base`, as a percentage of `base`.
fn percentage(value: u128, base: u128) -> (percent: Option<i128>)
    requires
        value <= VALUE_LIMIT,
        base <= VALUE_LIMIT,
    ensures
        percentage_over(value as int, base as int) == match percent {
            Some(p) => Some(p as int),
            None => None,
        },
{
    if base == 0 {
        None
    } else if value >= base {
        let gain: u128 = value - base;
        assert(gain * 100_000_000 <= 0x10_0000_0000_0000_0000_0000_0000 * 100_000_000)
            by (nonlinear_arith)
            requires
                gain <= 0x10_0000_0000_0000_0000_0000_0000,
        ;
        let percent: u128 = gain * HUNDRED_PERCENT / base;
        Some(percent as i128)
    } else {
        let loss: u128 = base - value;
        assert(loss * 100_000_000 <= 0x10_0000_0000_0000_0000_0000_0000 * 100_000_000)
            by (nonlinear_arith)
            requires
                loss <= 0x10_0000_0000_0000_0000_0000_0000,
        ;
        let percent: u128 = loss * HUNDRED_PERCENT / base;
        Some(-(percent as i128))
    }
}

impl SummaryData {
    /// What the holding is worth, how that compares with its worth at the
    /// last close, and how with what it cost.
    pub open spec fn of(stock: PricedStock) -> SummaryData {
        let current_value = stock.price * stock.quantity;
        let last_value = stock.last_price * stock.quantity;
        let purchase_cost = stock.quantity * stock.average_price;
        SummaryData {
            name: stock.symbol,
            quantity: stock.quantity,
            current_price: stock.price,
            current_value: current_value as u128,
            change: (current_value - last_value) as i128,
            change_percentage: match percentage_over(current_value, last_value) {
                Some(p) => Some(p as i128),
                None => None,
            },
            average_price: stock.average_price,
            profit: (current_value - purchase_cost) as i128,
            profit_percentage: match percentage_over(current_value, purchase_cost) {
                Some(p) => Some(p as i128),
                None => None,
            },
            last_value: last_value as u128,
            purchase_cost: purchase_cost as u128,
        }
    }
}

impl From<PricedStock> for SummaryData {
    fn from(stock: PricedStock) -> (data: SummaryData) {
        assert(stock.price * stock.quantity <= 0xffff_ffff_ffff_ffff * 0xffff_ffff)
            by (nonlinear_arith)
            requires
                0 <= stock.price <= 0xffff_ffff_ffff_ffff,
                0 <= stock.quantity <= 0xffff_ffff,
        ;
        assert(stock.last_price * stock.quantity <= 0xffff_ffff_ffff_ffff * 0xffff_ffff)
            by (nonlinear_arith)
            requires
                0 <= stock.last_price <= 0xffff_ffff_ffff_ffff,
                0 <= stock.quantity <= 0xffff_ffff,
        ;
        assert(stock.quantity * stock.average_price <= 0xffff_ffff_ffff_ffff * 0xffff_ffff)
            by (nonlinear_arith)
            requires
                0 <= stock.average_price <= 0xffff_ffff_ffff_ffff,
                0 <= stock.quantity <= 0xffff_ffff,
        ;
        let current_value: u128 = stock.price as u128 * stock.quantity as u128;
        let last_value: u128 = stock.last_price as u128 * stock.quantity as u128;
        let purchase_cost: u128 = stock.quantity as u128 * stock.average_price as u128;
        SummaryData {
            name: stock.symbol,
            quantity: stock.quantity,
            current_price: stock.price,
            current_value,
            change: current_value as i128 - last_value as i128,
            change_percentage: percentage(current_value, last_value),
            average_price: stock.average_price,
            profit: current_value as i128 - purchase_cost as i128,
            profit_percentage: percentage(current_value, purchase_cost),
            last_value,
            purchase_cost,
        }
    }
}

impl vstd::std_specs::convert::FromSpecImpl<PricedStock> for SummaryData {
    open spec fn obeys_from_spec() -> bool {
        true
    }

    open spec fn from_spec(stock: PricedStock) -> SummaryData {
        SummaryData::of(stock)
    }
}

/// The totals of a summary of holdings: the sums of their current values,
/// of their values at the last close and of their costs, and the change and
/// the profit between these sums. `None` where one of the sums leaves the
/// limit.
pub fn summary_totals(data: &Vec<SummaryData>) -> (totals: Option<SummaryTotals>)
    ensures
        totals is Some <==> total_current(data@, data@.len() as int) <= VALUE_LIMIT && total_last(
            data@,
            data@.len() as int,
        ) <= VALUE_LIMIT && total_cost(data@, data@.len() as int) <= VALUE_LIMIT,
        totals matches Some(t) ==> {
            let current = total_current(data@, data@.len() as int);
            let last = total_last(data@, data@.len() as int);
            let cost = total_cost(data@, data@.len() as int);
            &&& t.current_value == current
            &&& t.last_value == last
            &&& t.purchase_cost == cost
            &&& t.change == current - last
            &&& t.profit == current - cost
            &&& percentage_over(current, last) == match t.change_percentage {
                Some(p) => Some(p as int),
                None => None,
            }
            &&& percentage_over(current, cost) == match t.profit_percentage {
                Some(p) => Some(p as int),
                None => None,
            }
        },
{
    let mut current: u128 = 0;
    let mut last: u128 = 0;
    let mut cost: u128 = 0;
    let mut i: usize = 0;
    while i < data.len()
        invariant
            i <= data.len(),
            current == total_current(data@, i as int),
            last == total_last(data@, i as int),
            cost == total_cost(data@, i as int),
            current <= VALUE_LIMIT,
            last <= VALUE_LIMIT,
            cost <= VALUE_LIMIT,
        decreases data.len() - i,
    {
        let row = &data[i];
        if row.current_value > VALUE_LIMIT || row.last_value > VALUE_LIMIT || row.purchase_cost
            > VALUE_LIMIT || current + row.current_value > VALUE_LIMIT || last + row.last_value
            > VALUE_LIMIT || cost + row.purchase_cost > VALUE_LIMIT {
            proof {
                lemma_totals_grow(data@, i + 1, data@.len() as int);
            }
            return None;
        }
        current = current + row.current_value;
        last = last + row.last_value;
        cost = cost + row.purchase_cost;
        i += 1;
    }
    Some(
        SummaryTotals {
            current_value: current,
            change: current as i128 - last as i128,
            change_percentage: percentage(current, last),
            profit: current as i128 - cost as i128,
            profit_percentage: percentage(current, cost),
            last_value: last,
            purchase_cost: cost,
        },
    )
}

} // verus!

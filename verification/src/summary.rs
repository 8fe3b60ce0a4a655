//! What the sells of one calendar month came to, and the tax due on it.

use vstd::prelude::*;

verus! {

/// The largest sum of money that a summary carries, in millionths of the
/// currency unit.
pub const AMOUNT_LIMIT: u128 = 0x7fff_ffff_ffff_ffff_ffff_ffff_ffff_ffff;

/// Sales of a month up to this amount, 20000 currency units, are exempt
/// from tax.
pub const TAX_EXEMPT_SALES: u128 = 20_000_000_000;

/// The tax on the profit of a month that is not exempt, in percent.
pub const TAX_RATE_PERCENT: i128 = 15;

/// The sells of one calendar month: what they brought in, and the profit in
/// it over the average cost of the shares sold.
#[derive(Clone, Copy, Debug, PartialEq, Eq, Structural)]
pub struct MonthSummary {
    pub profit: i128,
    pub sold_amount: u128,
}

impl MonthSummary {
    /// The cost of the shares sold: what they brought in, less the profit.
    pub open spec fn cost(self) -> int {
        self.sold_amount - self.profit
    }

    /// Sales and cost are within the limit, and the cost is not negative.
    pub open spec fn wf(self) -> bool {
        &&& self.sold_amount <= AMOUNT_LIMIT
        &&& 0 <= self.cost() <= AMOUNT_LIMIT
    }

    /// The tax due on the month: the rate on the profit, in whole millionths,
    /// where the sales are above the exempt amount and there is a profit;
    /// else nothing.
    pub open spec fn spec_tax(self) -> int {
        if self.sold_amount > TAX_EXEMPT_SALES && self.profit > 0 {
            self.profit * TAX_RATE_PERCENT / 100
        } else {
            0
        }
    }

    /// A month without sells.
    pub fn new() -> (summary: MonthSummary)
        ensures
            summary.wf(),
            summary.profit == 0,
            summary.sold_amount == 0,
    {
        MonthSummary { profit: 0, sold_amount: 0 }
    }

    /// The summary with one more sale in it, which brought in `proceeds` for
    /// shares that cost `cost`; `None` where sales or cost would leave the
    /// limit.
    pub(crate) fn record(&self, proceeds: u128, cost: u128) -> (next: Option<MonthSummary>)
        requires
            self.wf(),
        ensures
            next is Some <==> self.sold_amount + proceeds <= AMOUNT_LIMIT && self.cost() + cost
                <= AMOUNT_LIMIT,
            next matches Some(s) ==> {
                &&& s.wf()
                &&& s.sold_amount == self.sold_amount + proceeds
                &&& s.profit == self.profit + proceeds - cost
            },
    {
        if proceeds > AMOUNT_LIMIT || cost > AMOUNT_LIMIT {
            return None;
        }
        let sold: u128 = self.sold_amount + proceeds;
        let spent: u128 = (self.sold_amount as i128 - self.profit) as u128 + cost;
        if sold > AMOUNT_LIMIT || spent > AMOUNT_LIMIT {
            return None;
        }
        Some(MonthSummary { profit: sold as i128 - spent as i128, sold_amount: sold })
    }

    /// The tax due on the month.
    pub fn tax(&self) -> (tax: i128)
        ensures
            tax == self.spec_tax(),
    {
        if self.sold_amount > TAX_EXEMPT_SALES && self.profit > 0 {
            let hundreds: i128 = self.profit / 100;
            let rest: i128 = self.profit % 100;
            hundreds * TAX_RATE_PERCENT + rest * TAX_RATE_PERCENT / 100
        } else {
            0
        }
    }
}

impl Default for MonthSummary {
    fn default() -> (summary: MonthSummary)
        ensures
            summary.wf(),
            summary.profit == 0,
            summary.sold_amount == 0,
    {
        MonthSummary::new()
    }
}

/// One row of the profit summary of a year: the sells of a month, or of
/// the whole year, with the tax due on them.
#[derive(Clone, Copy, Debug, PartialEq, Eq, Structural)]
pub struct ProfitSummaryData {
    pub profit: i128,
    pub sold_amount: u128,
    pub tax: i128,
}

/// The sum of the profits of the first `n` months that made one.
pub open spec fn total_gains(months: Seq<MonthSummary>, n: int) -> int
    decreases n,
{
    if n <= 0 {
        0
    } else if months[n - 1].profit > 0 {
        total_gains(months, n - 1) + months[n - 1].profit
    } else {
        total_gains(months, n - 1)
    }
}

/// The sum of the losses of the first `n` months that made one.
pub open spec fn total_losses(months: Seq<MonthSummary>, n: int) -> int
    decreases n,
{
    if n <= 0 {
        0
    } else if months[n - 1].profit < 0 {
        total_losses(months, n - 1) - months[n - 1].profit
    } else {
        total_losses(months, n - 1)
    }
}

/// The sum of the profits of the first `n` months, losses taken off.
pub open spec fn total_profit(months: Seq<MonthSummary>, n: int) -> int
    decreases n,
{
    if n <= 0 {
        0
    } else {
        total_profit(months, n - 1) + months[n - 1].profit
    }
}

/// The sum of the sales of the first `n` months.
pub open spec fn total_sold(months: Seq<MonthSummary>, n: int) -> int
    decreases n,
{
    if n <= 0 {
        0
    } else {
        total_sold(months, n - 1) + months[n - 1].sold_amount
    }
}

/// The sum of the taxes due on the first `n` months.
pub open spec fn total_tax(months: Seq<MonthSummary>, n: int) -> int
    decreases n,
{
    if n <= 0 {
        0
    } else {
        total_tax(months, n - 1) + months[n - 1].spec_tax()
    }
}

/// The sums over the months grow with the number of months, and the profit
/// is the gains less the losses.
pub proof fn lemma_year_grows(months: Seq<MonthSummary>, i: int, n: int)
    requires
        0 <= i <= n,
    ensures
        0 <= total_gains(months, i) <= total_gains(months, n),
        0 <= total_losses(months, i) <= total_losses(months, n),
        0 <= total_sold(months, i) <= total_sold(months, n),
        0 <= total_tax(months, i) <= total_tax(months, n),
        total_profit(months, n) == total_gains(months, n) - total_losses(months, n),
    decreases n,
{
    if n > 0 {
        if i < n {
            lemma_year_grows(months, i, n - 1);
        } else {
            lemma_year_grows(months, i - 1, n - 1);
        }
    }
}

/// Whether the sums over the twelve months stay within the limit.
pub open spec fn year_fits(months: Seq<MonthSummary>) -> bool {
    &&& total_gains(months, 12) <= AMOUNT_LIMIT
    &&& total_losses(months, 12) <= AMOUNT_LIMIT
    &&& total_sold(months, 12) <= AMOUNT_LIMIT
    &&& total_tax(months, 12) <= AMOUNT_LIMIT
}

/// The rows of the profit summary of a year: each month with the tax due on
/// it.
pub fn profit_summary_rows(months: &[MonthSummary; 12]) -> (rows: [ProfitSummaryData; 12])
    ensures
        forall|m: int|
            #![trigger rows@[m]]
            0 <= m < 12 ==> {
                &&& rows@[m].profit == months@[m].profit
                &&& rows@[m].sold_amount == months@[m].sold_amount
                &&& rows@[m].tax == months@[m].spec_tax()
            },
{
    let mut rows: [ProfitSummaryData; 12] = [ProfitSummaryData {
        profit: 0,
        sold_amount: 0,
        tax: 0,
    };12];
    let mut m: usize = 0;
    while m < 12
        invariant
            m <= 12,
            forall|j: int|
                #![trigger rows@[j]]
                0 <= j < m ==> {
                    &&& rows@[j].profit == months@[j].profit
                    &&& rows@[j].sold_amount == months@[j].sold_amount
                    &&& rows@[j].tax == months@[j].spec_tax()
                },
        decreases 12 - m,
    {
        let month = months[m];
        rows[m] = ProfitSummaryData {
            profit: month.profit,
            sold_amount: month.sold_amount,
            tax: month.tax(),
        };
        m += 1;
    }
    rows
}

/// The last row of the profit summary of a year: the sums of the profits,
/// of the sales and of the taxes of its twelve months. `None` where a sum
/// leaves the limit.
pub fn profit_summary_totals(months: &[MonthSummary; 12]) -> (totals: Option<ProfitSummaryData>)
    ensures
        totals is Some <==> year_fits(months@),
        totals matches Some(t) ==> {
            &&& t.profit == total_profit(months@, 12)
            &&& t.sold_amount == total_sold(months@, 12)
            &&& t.tax == total_tax(months@, 12)
        },
{
    let mut gains: u128 = 0;
    let mut losses: u128 = 0;
    let mut sold: u128 = 0;
    let mut tax: u128 = 0;
    let mut m: usize = 0;
    while m < 12
        invariant
            m <= 12,
            gains == total_gains(months@, m as int),
            losses == total_losses(months@, m as int),
            sold == total_sold(months@, m as int),
            tax == total_tax(months@, m as int),
            gains <= AMOUNT_LIMIT,
            losses <= AMOUNT_LIMIT,
            sold <= AMOUNT_LIMIT,
            tax <= AMOUNT_LIMIT,
        decreases 12 - m,
    {
        let month = months[m];
        let gain: u128 = if month.profit > 0 {
            month.profit as u128
        } else {
            0
        };
        let loss: u128 = if month.profit < 0 {
            (-(month.profit + 1)) as u128 + 1
        } else {
            0
        };
        let due: i128 = month.tax();
        if month.sold_amount > AMOUNT_LIMIT || gains + gain > AMOUNT_LIMIT || losses + loss
            > AMOUNT_LIMIT || sold + month.sold_amount > AMOUNT_LIMIT || tax + due as u128
            > AMOUNT_LIMIT {
            proof {
                lemma_year_grows(months@, m + 1, 12);
            }
            return None;
        }
        gains = gains + gain;
        losses = losses + loss;
        sold = sold + month.sold_amount;
        tax = tax + due as u128;
        m += 1;
    }
    proof {
        lemma_year_grows(months@, 12, 12);
    }
    Some(
        ProfitSummaryData {
            profit: gains as i128 - losses as i128,
            sold_amount: sold,
            tax: tax as i128,
        },
    )
}

} // verus!

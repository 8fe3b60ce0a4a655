//! An undated history of trades in one security, and its totals.

use crate::summary::AMOUNT_LIMIT;
use vstd::prelude::*;

verus! {

/// Which way a trade of a history moves shares.
#[allow(non_camel_case_types)]
#[derive(Clone, Copy, Debug, PartialEq, Eq, Structural)]
pub enum TradeType {
    BUY,
    SELL,
}

/// A trade of a history: `quantity` shares at `price` millionths of the
/// currency unit each.
#[derive(Clone, Copy, Debug, PartialEq, Eq, Structural)]
pub struct Trade {
    pub kind: TradeType,
    pub quantity: u32,
    pub price: u64,
}

impl Trade {
    /// A trade of `quantity` shares at `price` each.
    pub fn new(kind: TradeType, quantity: u32, price: u64) -> (trade: Trade)
        ensures
            trade == (Trade { kind, quantity, price }),
    {
        Trade { kind, quantity, price }
    }

    /// The money that the trade moved: price times quantity.
    pub open spec fn amount(self) -> int {
        self.price * self.quantity
    }
}

/// A quotient of two whole numbers that is kept unrounded.
#[derive(Clone, Copy, Debug, PartialEq, Eq, Structural)]
pub struct Fraction {
    pub numerator: u128,
    pub denominator: u128,
}

/// The money moved by the trades of kind `kind` among the first `n`.
pub open spec fn money(trades: Seq<Trade>, kind: TradeType, n: int) -> int
    decreases n,
{
    if n <= 0 {
        0
    } else if trades[n - 1].kind == kind {
        money(trades, kind, n - 1) + trades[n - 1].amount()
    } else {
        money(trades, kind, n - 1)
    }
}

/// The shares moved by the trades of kind `kind` among the first `n`.
pub open spec fn shares(trades: Seq<Trade>, kind: TradeType, n: int) -> int
    decreases n,
{
    if n <= 0 {
        0
    } else if trades[n - 1].kind == kind {
        shares(trades, kind, n - 1) + trades[n - 1].quantity
    } else {
        shares(trades, kind, n - 1)
    }
}

/// The money moved grows with the part of the history it is taken over.
pub proof fn lemma_money_grows(trades: Seq<Trade>, kind: TradeType, i: int, n: int)
    requires
        0 <= i <= n,
    ensures
        0 <= money(trades, kind, i) <= money(trades, kind, n),
    decreases n,
{
    if n > 0 {
        let last = trades[n - 1];
        assert(last.price * last.quantity >= 0) by (nonlinear_arith)
            requires
                last.price >= 0,
                last.quantity >= 0,
        ;
        if i < n {
            lemma_money_grows(trades, kind, i, n - 1);
        } else {
            lemma_money_grows(trades, kind, i - 1, n - 1);
        }
    }
}

/// An undated history of trades.
#[derive(Debug)]
pub struct TradeHistory {
    trades: Vec<Trade>,
}

impl View for TradeHistory {
    type V = Seq<Trade>;

    closed spec fn view(&self) -> Seq<Trade> {
        self.trades@
    }
}

impl TradeHistory {
    /// The history that holds `trades`, in their order.
    pub fn new(trades: Vec<Trade>) -> (history: TradeHistory)
        ensures
            history@ == trades@,
    {
        TradeHistory { trades }
    }

    /// The money moved by all trades of kind `kind`, where it is within the
    /// limit.
    pub fn money_moved(&self, kind: TradeType) -> (total: Option<u128>)
        ensures
            total is Some <==> money(self@, kind, self@.len() as int) <= AMOUNT_LIMIT,
            total matches Some(t) ==> t == money(self@, kind, self@.len() as int),
    {
        let mut total: u128 = 0;
        let mut i: usize = 0;
        while i < self.trades.len()
            invariant
                i <= self.trades.len(),
                total == money(self.trades@, kind, i as int),
                total <= AMOUNT_LIMIT,
            decreases self.trades.len() - i,
        {
            let trade: Trade = self.trades[i];
            if trade.kind == kind {
                assert(trade.price * trade.quantity <= 0xffff_ffff_ffff_ffff * 0xffff_ffff)
                    by (nonlinear_arith)
                    requires
                        0 <= trade.price <= 0xffff_ffff_ffff_ffff,
                        0 <= trade.quantity <= 0xffff_ffff,
                ;
                let amount: u128 = trade.price as u128 * trade.quantity as u128;
                if total + amount > AMOUNT_LIMIT {
                    proof {
                        lemma_money_grows(self.trades@, kind, i + 1, self.trades@.len() as int);
                    }
                    return None;
                }
                total = total + amount;
            }
            i += 1;
        }
        Some(total)
    }

    /// The shares moved by all trades of kind `kind`.
    pub fn shares_moved(&self, kind: TradeType) -> (total: u128)
        ensures
            total == shares(self@, kind, self@.len() as int),
            total <= 0xffff_ffff * self@.len(),
    {
        let mut total: u128 = 0;
        let mut i: usize = 0;
        while i < self.trades.len()
            invariant
                i <= self.trades.len(),
                total == shares(self.trades@, kind, i as int),
                total <= 0xffff_ffff * i,
            decreases self.trades.len() - i,
        {
            let trade: Trade = self.trades[i];
            if trade.kind == kind {
                total = total + trade.quantity as u128;
            }
            i += 1;
        }
        total
    }

    /// The money put in and not taken out: what the buys cost, less what the
    /// sells brought in. `None` where either sum leaves the limit.
    pub fn value(&self) -> (value: Option<i128>)
        ensures
            value is Some <==> money(self@, TradeType::BUY, self@.len() as int) <= AMOUNT_LIMIT
                && money(self@, TradeType::SELL, self@.len() as int) <= AMOUNT_LIMIT,
            value matches Some(v) ==> v == money(self@, TradeType::BUY, self@.len() as int) - money(
                self@,
                TradeType::SELL,
                self@.len() as int,
            ),
    {
        match (self.money_moved(TradeType::BUY), self.money_moved(TradeType::SELL)) {
            (Some(bought), Some(sold)) => Some(bought as i128 - sold as i128),
            _ => None,
        }
    }

    /// The shares bought, less the shares sold.
    pub fn quantity(&self) -> (quantity: i128)
        ensures
            quantity == shares(self@, TradeType::BUY, self@.len() as int) - shares(
                self@,
                TradeType::SELL,
                self@.len() as int,
            ),
    {
        let bought: u128 = self.shares_moved(TradeType::BUY);
        let sold: u128 = self.shares_moved(TradeType::SELL);
        let count: usize = self.trades.len();
        assert(0xffff_ffff * self@.len() <= 0xffff_ffff * 0xffff_ffff_ffff_ffff)
            by (nonlinear_arith)
            requires
                self@.len() <= 0xffff_ffff_ffff_ffff,
        ;
        bought as i128 - sold as i128
    }

    /// The average price of a share bought: what the buys cost over the
    /// shares they bought, unrounded. `None` where no share was bought, or
    /// where the cost leaves the limit.
    pub fn average_price(&self) -> (average: Option<Fraction>)
        ensures
            average is Some <==> shares(self@, TradeType::BUY, self@.len() as int) > 0 && money(
                self@,
                TradeType::BUY,
                self@.len() as int,
            ) <= AMOUNT_LIMIT,
            average matches Some(f) ==> {
                &&& f.numerator == money(self@, TradeType::BUY, self@.len() as int)
                &&& f.denominator == shares(self@, TradeType::BUY, self@.len() as int)
            },
    {
        let bought: u128 = self.shares_moved(TradeType::BUY);
        match self.money_moved(TradeType::BUY) {
            Some(cost) => if bought > 0 {
                Some(Fraction { numerator: cost, denominator: bought })
            } else {
                None
            },
            None => None,
        }
    }
}

/// A history of three trades: a buy of 100 shares at 18.43, a buy of 75 at
/// 10.33, and a sell of 50 at 9.20.
pub fn setup_trade_history() -> (history: TradeHistory)
    ensures
        history@ == seq![
            Trade { kind: TradeType::BUY, quantity: 100, price: 18_430_000 },
            Trade { kind: TradeType::BUY, quantity: 75, price: 10_330_000 },
            Trade { kind: TradeType::SELL, quantity: 50, price: 9_200_000 },
        ],
{
    let mut trades: Vec<Trade> = Vec::new();
    trades.push(Trade::new(TradeType::BUY, 100, 18_430_000));
    trades.push(Trade::new(TradeType::BUY, 75, 10_330_000));
    trades.push(Trade::new(TradeType::SELL, 50, 9_200_000));
    let history = TradeHistory::new(trades);
    assert(history@ =~= seq![
        Trade { kind: TradeType::BUY, quantity: 100, price: 18_430_000 },
        Trade { kind: TradeType::BUY, quantity: 75, price: 10_330_000 },
        Trade { kind: TradeType::SELL, quantity: 50, price: 9_200_000 },
    ]);
    history
}

} // verus!

//! Trades, split adjustments, and a trade's effective size and price as of a
//! reference date.

use crate::timestamp::Timestamp;
use vstd::prelude::*;

verus! {

/// The largest share count and the largest split factor that are carried.
pub const SHARE_LIMIT: u32 = 0xffff_ffff;

/// The largest price, in millionths of the currency unit, that is carried.
pub const PRICE_LIMIT: u64 = 0xffff_ffff_ffff_ffff;

/// Which way a trade moves shares.
#[derive(Clone, Copy, Debug, PartialEq, Eq, Structural)]
pub enum TradeKind {
    Buy,
    Sell,
}

/// A split ratio: `numerator` new shares for every `denominator` old ones.
/// Above one it is a forward split, below one a reverse split.
#[derive(Clone, Copy, Debug, PartialEq, Eq, Structural)]
pub struct Ratio {
    pub numerator: u32,
    pub denominator: u32,
}

impl Ratio {
    /// A ratio is positive when neither of its parts is zero.
    pub open spec fn positive(self) -> bool {
        self.numerator > 0 && self.denominator > 0
    }

    /// Whether the ratio is positive.
    pub fn is_positive(&self) -> (positive: bool)
        ensures
            positive == self.positive(),
    {
        self.numerator > 0 && self.denominator > 0
    }
}

/// A split adjustment attached to a trade: as of every date after `datetime`, the trade
/// counts `ratio` times as many shares at the price divided by `ratio`.
#[derive(Clone, Copy, Debug, PartialEq, Eq, Structural)]
pub struct Split {
    pub ratio: Ratio,
    pub datetime: Timestamp,
}

/// One buy or sell of `quantity` shares at `price` millionths of the
/// currency unit each, with the split adjustments that came after it.
#[derive(Debug)]
pub struct Trade {
    pub quantity: u32,
    pub price: u64,
    pub datetime: Timestamp,
    pub kind: TradeKind,
    pub splits: Vec<Split>,
}

/// What a trade is, as a mathematical value.
pub struct TradeView {
    pub quantity: u32,
    pub price: u64,
    pub datetime: Timestamp,
    pub kind: TradeKind,
    pub splits: Seq<Split>,
}

impl View for Trade {
    type V = TradeView;

    open spec fn view(&self) -> TradeView {
        TradeView {
            quantity: self.quantity,
            price: self.price,
            datetime: self.datetime,
            kind: self.kind,
            splits: self.splits@,
        }
    }
}

/// The product of the numerators of the adjustments dated before `date`.
pub open spec fn split_numerator(splits: Seq<Split>, date: int) -> int
    decreases splits.len(),
{
    if splits.len() == 0 {
        1
    } else if splits.last().datetime.instant() < date {
        split_numerator(splits.drop_last(), date) * splits.last().ratio.numerator
    } else {
        split_numerator(splits.drop_last(), date)
    }
}

/// The product of the denominators of the adjustments dated before `date`.
pub open spec fn split_denominator(splits: Seq<Split>, date: int) -> int
    decreases splits.len(),
{
    if splits.len() == 0 {
        1
    } else if splits.last().datetime.instant() < date {
        split_denominator(splits.drop_last(), date) * splits.last().ratio.denominator
    } else {
        split_denominator(splits.drop_last(), date)
    }
}

impl TradeView {
    /// The numerator of the split factor as of `date`.
    pub open spec fn numerator(self, date: int) -> int {
        split_numerator(self.splits, date)
    }

    /// The denominator of the split factor as of `date`.
    pub open spec fn denominator(self, date: int) -> int {
        split_denominator(self.splits, date)
    }

    /// The shares that the trade counts as of `date`: its quantity times the
    /// split factor, in whole shares.
    pub open spec fn effective_quantity(self, date: int) -> int {
        self.quantity * self.numerator(date) / self.denominator(date)
    }

    /// The unit price of the trade as of `date`: its price divided by the
    /// split factor, in whole millionths.
    pub open spec fn effective_price(self, date: int) -> int {
        self.price * self.denominator(date) / self.numerator(date)
    }

    /// The money that the trade's shares stand for as of `date`: effective
    /// price times effective quantity, rounded once, at the end.
    pub open spec fn effective_value(self, date: int) -> int {
        self.price * self.denominator(date) * self.effective_quantity(date) / self.numerator(date)
    }

    /// Whether the trade can be read as of `date`: the split factor is
    /// positive, and factor, shares and price stay within their limits.
    pub open spec fn representable(self, date: int) -> bool {
        &&& 1 <= self.numerator(date) <= SHARE_LIMIT
        &&& 1 <= self.denominator(date) <= SHARE_LIMIT
        &&& self.effective_quantity(date) <= SHARE_LIMIT
        &&& self.effective_price(date) <= PRICE_LIMIT
    }

    /// The trade is of at least one share, and every adjustment has a
    /// positive ratio and is dated after the trade.
    pub open spec fn wf(self) -> bool {
        &&& self.quantity > 0
        &&& forall|i: int|
            0 <= i < self.splits.len() ==> {
                &&& (#[trigger] self.splits[i]).ratio.positive()
                &&& self.datetime.instant() < self.splits[i].datetime.instant()
            }
    }
}

/// A trade as it counts as of some date.
#[derive(Clone, Copy, Debug, PartialEq, Eq, Structural)]
pub struct Effective {
    /// Shares, after the split factor.
    pub quantity: u32,
    /// Unit price, after the split factor.
    pub price: u64,
    /// The money the shares stand for.
    pub value: u128,
}

/// Products of split parts are never negative.
pub proof fn lemma_factor_not_negative(splits: Seq<Split>, date: int)
    ensures
        split_numerator(splits, date) >= 0,
        split_denominator(splits, date) >= 0,
    decreases splits.len(),
{
    if splits.len() > 0 {
        lemma_factor_not_negative(splits.drop_last(), date);
        let n = split_numerator(splits.drop_last(), date);
        let d = split_denominator(splits.drop_last(), date);
        let r = splits.last().ratio;
        assert(n * r.numerator >= 0) by (nonlinear_arith)
            requires
                n >= 0,
                r.numerator >= 0,
        ;
        assert(d * r.denominator >= 0) by (nonlinear_arith)
            requires
                d >= 0,
                r.denominator >= 0,
        ;
    }
}

/// A factor of one changes nothing.
proof fn lemma_unit_factor(quantity: int, price: int, n: int, d: int)
    by (nonlinear_arith)
    requires
        n == 1,
        d == 1,
    ensures
        quantity * n / d == quantity,
        price * d / n == price,
        price * d * quantity / n == price * quantity,
{
}

/// A trade without adjustments counts as it was made, as of every date.
pub proof fn lemma_unadjusted(trade: TradeView, date: int)
    requires
        trade.splits.len() == 0,
    ensures
        trade.numerator(date) == 1,
        trade.denominator(date) == 1,
        trade.effective_quantity(date) == trade.quantity,
        trade.effective_price(date) == trade.price,
        trade.effective_value(date) == trade.price * trade.quantity,
        trade.representable(date),
{
    lemma_unit_factor(
        trade.quantity as int,
        trade.price as int,
        trade.numerator(date),
        trade.denominator(date),
    );
}

/// What an adjustment put at the end does to the split factor.
pub proof fn lemma_factor_pushed(splits: Seq<Split>, split: Split, date: int)
    ensures
        split.datetime.instant() < date ==> split_numerator(splits.push(split), date)
            == split_numerator(splits, date) * split.ratio.numerator && split_denominator(
            splits.push(split),
            date,
        ) == split_denominator(splits, date) * split.ratio.denominator,
        split.datetime.instant() >= date ==> split_numerator(splits.push(split), date)
            == split_numerator(splits, date) && split_denominator(splits.push(split), date)
            == split_denominator(splits, date),
{
    assert(splits.push(split).drop_last() =~= splits);
}

/// The split factor is the same as of two dates between which no adjustment
/// is dated.
pub proof fn lemma_factor_between(splits: Seq<Split>, from: int, to: int)
    requires
        from <= to,
        forall|i: int|
            0 <= i < splits.len() ==> !(from <= (#[trigger] splits[i]).datetime.instant() < to),
    ensures
        split_numerator(splits, to) == split_numerator(splits, from),
        split_denominator(splits, to) == split_denominator(splits, from),
    decreases splits.len(),
{
    if splits.len() > 0 {
        assert forall|i: int| 0 <= i < splits.drop_last().len() implies !(from <= (
        #[trigger] splits.drop_last()[i]).datetime.instant() < to) by {
            assert(splits.drop_last()[i] == splits[i]);
        }
        lemma_factor_between(splits.drop_last(), from, to);
        assert(splits.last() == splits[splits.len() - 1]);
    }
}

/// A trade that is well formed counts as it was made as of its own date:
/// every adjustment it carries is dated later.
pub proof fn lemma_own_date(trade: TradeView)
    requires
        trade.wf(),
    ensures
        trade.numerator(trade.datetime.instant()) == 1,
        trade.denominator(trade.datetime.instant()) == 1,
        trade.effective_quantity(trade.datetime.instant()) == trade.quantity,
        trade.effective_price(trade.datetime.instant()) == trade.price,
        trade.effective_value(trade.datetime.instant()) == trade.price * trade.quantity,
        trade.representable(trade.datetime.instant()),
{
    let own = trade.datetime.instant();
    lemma_no_factor(trade.splits, own);
    lemma_unit_factor(
        trade.quantity as int,
        trade.price as int,
        trade.numerator(own),
        trade.denominator(own),
    );
}

/// The split factor is one where no adjustment is dated before the date.
pub proof fn lemma_no_factor(splits: Seq<Split>, date: int)
    requires
        forall|i: int| 0 <= i < splits.len() ==> (#[trigger] splits[i]).datetime.instant() >= date,
    ensures
        split_numerator(splits, date) == 1,
        split_denominator(splits, date) == 1,
    decreases splits.len(),
{
    if splits.len() > 0 {
        assert forall|i: int| 0 <= i < splits.drop_last().len() implies (
        #[trigger] splits.drop_last()[i]).datetime.instant() >= date by {
            assert(splits.drop_last()[i] == splits[i]);
        }
        lemma_no_factor(splits.drop_last(), date);
        assert(splits.last() == splits[splits.len() - 1]);
    }
}

/// The product over all adjustments is zero where the product over a prefix
/// is, and is otherwise no smaller than it.
proof fn lemma_numerator_grows(splits: Seq<Split>, date: int, i: int)
    requires
        0 <= i <= splits.len(),
    ensures
        split_numerator(splits.take(i), date) == 0 ==> split_numerator(splits, date) == 0,
        split_numerator(splits, date) == 0 || split_numerator(splits, date) >= split_numerator(
            splits.take(i),
            date,
        ),
    decreases splits.len() - i,
{
    if i == splits.len() {
        assert(splits.take(i) =~= splits);
    } else {
        lemma_numerator_grows(splits.drop_last(), date, i);
        assert(splits.drop_last().take(i) =~= splits.take(i));
        lemma_factor_not_negative(splits.drop_last(), date);
        let rest = split_numerator(splits.drop_last(), date);
        let part = splits.last().ratio.numerator as int;
        assert(part == 0 || rest == 0 ==> rest * part == 0) by (nonlinear_arith);
        assert(part >= 1 && rest >= 0 ==> rest * part >= rest) by (nonlinear_arith);
    }
}

proof fn lemma_denominator_grows(splits: Seq<Split>, date: int, i: int)
    requires
        0 <= i <= splits.len(),
    ensures
        split_denominator(splits.take(i), date) == 0 ==> split_denominator(splits, date) == 0,
        split_denominator(splits, date) == 0 || split_denominator(splits, date)
            >= split_denominator(splits.take(i), date),
    decreases splits.len() - i,
{
    if i == splits.len() {
        assert(splits.take(i) =~= splits);
    } else {
        lemma_denominator_grows(splits.drop_last(), date, i);
        assert(splits.drop_last().take(i) =~= splits.take(i));
        lemma_factor_not_negative(splits.drop_last(), date);
        let rest = split_denominator(splits.drop_last(), date);
        let part = splits.last().ratio.denominator as int;
        assert(part == 0 || rest == 0 ==> rest * part == 0) by (nonlinear_arith);
        assert(part >= 1 && rest >= 0 ==> rest * part >= rest) by (nonlinear_arith);
    }
}

impl Trade {
    /// The split factor as of `datetime`, where both of its parts are
    /// positive and within the limit.
    fn factor(&self, datetime: &Timestamp) -> (factor: Option<(u32, u32)>)
        ensures
            match factor {
                Some((n, d)) => {
                    &&& n == self@.numerator(datetime.instant())
                    &&& d == self@.denominator(datetime.instant())
                    &&& n >= 1
                    &&& d >= 1
                },
                None => !(1 <= self@.numerator(datetime.instant()) <= SHARE_LIMIT && 1
                    <= self@.denominator(datetime.instant()) <= SHARE_LIMIT),
            },
    {
        let ghost date = datetime.instant();
        let mut n: u32 = 1;
        let mut d: u32 = 1;
        let mut i: usize = 0;
        while i < self.splits.len()
            invariant
                i <= self.splits.len(),
                date == datetime.instant(),
                n == split_numerator(self.splits@.take(i as int), date),
                d == split_denominator(self.splits@.take(i as int), date),
                n >= 1,
                d >= 1,
            decreases self.splits.len() - i,
        {
            let split: Split = self.splits[i];
            let ghost next = self.splits@.take(i + 1);
            assert(next.drop_last() =~= self.splits@.take(i as int));
            assert(next.last() == split);
            if split.datetime.is_before(datetime) {
                assert(n * split.ratio.numerator <= 0xffff_ffff * 0xffff_ffff) by (nonlinear_arith)
                    requires
                        0 <= n <= 0xffff_ffff,
                        0 <= split.ratio.numerator <= 0xffff_ffff,
                ;
                assert(d * split.ratio.denominator <= 0xffff_ffff * 0xffff_ffff)
                    by (nonlinear_arith)
                    requires
                        0 <= d <= 0xffff_ffff,
                        0 <= split.ratio.denominator <= 0xffff_ffff,
                ;
                let wide_n: u64 = n as u64 * split.ratio.numerator as u64;
                let wide_d: u64 = d as u64 * split.ratio.denominator as u64;
                assert(wide_n == split_numerator(next, date));
                assert(wide_d == split_denominator(next, date));
                if wide_n == 0 || wide_n > SHARE_LIMIT as u64 || wide_d == 0 || wide_d
                    > SHARE_LIMIT as u64 {
                    proof {
                        lemma_numerator_grows(self.splits@, date, i + 1);
                        lemma_denominator_grows(self.splits@, date, i + 1);
                    }
                    return None;
                }
                n = wide_n as u32;
                d = wide_d as u32;
            }
            i += 1;
        }
        assert(self.splits@.take(i as int) =~= self.splits@);
        Some((n, d))
    }

    /// A trade without adjustments.
    pub fn new(kind: TradeKind, quantity: u32, price: u64, datetime: Timestamp) -> (trade: Trade)
        ensures
            trade@ == (TradeView { quantity, price, datetime, kind, splits: Seq::empty() }),
            trade@.wf() <==> quantity > 0,
    {
        Trade { quantity, price, datetime, kind, splits: Vec::new() }
    }

    /// Whether the trade is of at least one share, and every adjustment has a
    /// positive ratio and is dated after the trade.
    pub fn is_well_formed(&self) -> (well_formed: bool)
        ensures
            well_formed == self@.wf(),
    {
        if self.quantity == 0 {
            return false;
        }
        let mut i: usize = 0;
        while i < self.splits.len()
            invariant
                i <= self.splits.len(),
                forall|j: int|
                    0 <= j < i ==> {
                        &&& (#[trigger] self.splits@[j]).ratio.positive()
                        &&& self.datetime.instant() < self.splits@[j].datetime.instant()
                    },
            decreases self.splits.len() - i,
        {
            let split: Split = self.splits[i];
            if !split.ratio.is_positive() || !self.datetime.is_before(&split.datetime) {
                assert(self@.splits[i as int] == split);
                return false;
            }
            i += 1;
        }
        true
    }

    /// The trade as it counts as of `datetime`, or `None` where it cannot be
    /// read as of that date.
    pub fn effective(&self, datetime: &Timestamp) -> (effective: Option<Effective>)
        ensures
            effective is Some <==> self@.representable(datetime.instant()),
            effective matches Some(e) ==> {
                &&& e.quantity == self@.effective_quantity(datetime.instant())
                &&& e.price == self@.effective_price(datetime.instant())
                &&& e.value == self@.effective_value(datetime.instant())
            },
    {
        match self.factor(datetime) {
            None => None,
            Some((n, d)) => {
                assert(self.quantity * n <= 0xffff_ffff * 0xffff_ffff) by (nonlinear_arith)
                    requires
                        0 <= self.quantity <= 0xffff_ffff,
                        0 <= n <= 0xffff_ffff,
                ;
                assert(self.price * d <= 0xffff_ffff_ffff_ffff * 0xffff_ffff) by (nonlinear_arith)
                    requires
                        0 <= self.price <= 0xffff_ffff_ffff_ffff,
                        0 <= d <= 0xffff_ffff,
                ;
                let shares: u64 = self.quantity as u64 * n as u64 / d as u64;
                let scaled: u128 = self.price as u128 * d as u128;
                let price: u128 = scaled / n as u128;
                if shares > SHARE_LIMIT as u64 || price > PRICE_LIMIT as u128 {
                    return None;
                }
                assert(scaled * shares <= 0xffff_ffff_ffff_ffff * 0xffff_ffff * 0xffff_ffff)
                    by (nonlinear_arith)
                    requires
                        0 <= scaled <= 0xffff_ffff_ffff_ffff * 0xffff_ffff,
                        0 <= shares <= 0xffff_ffff,
                ;
                let value: u128 = scaled * shares as u128 / n as u128;
                Some(Effective { quantity: shares as u32, price: price as u64, value })
            },
        }
    }

    /// The shares that the trade counts as of `datetime`: its quantity times
    /// the ratio of every adjustment dated before `datetime`.
    pub fn quantity(&self, datetime: &Timestamp) -> (shares: Option<u32>)
        ensures
            shares is Some <==> self@.representable(datetime.instant()),
            shares matches Some(q) ==> q == self@.effective_quantity(datetime.instant()),
    {
        match self.effective(datetime) {
            Some(e) => Some(e.quantity),
            None => None,
        }
    }

    /// The unit price of the trade as of `datetime`: its price divided by the
    /// ratio of every adjustment dated before `datetime`.
    pub fn price(&self, datetime: &Timestamp) -> (price: Option<u64>)
        ensures
            price is Some <==> self@.representable(datetime.instant()),
            price matches Some(p) ==> p == self@.effective_price(datetime.instant()),
    {
        match self.effective(datetime) {
            Some(e) => Some(e.price),
            None => None,
        }
    }
}

} // verus!

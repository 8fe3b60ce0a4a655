//! The replay of a ledger: the shares held and what they cost, as of a
//! reference date.

use crate::timestamp::Timestamp;
use crate::trade::{Trade, TradeKind, TradeView, SHARE_LIMIT};
use vstd::prelude::*;

verus! {

/// A holding as a mathematical value: the shares held and the cost at which
/// they are carried.
pub struct Position {
    pub quantity: int,
    pub cost: int,
}

/// A holding: the shares held and the cost at which they are carried, in
/// millionths of the currency unit.
#[derive(Clone, Copy, Debug, PartialEq, Eq, Structural)]
pub struct Holding {
    pub quantity: u32,
    pub cost: u128,
}

impl View for Holding {
    type V = Position;

    open spec fn view(&self) -> Position {
        Position { quantity: self.quantity as int, cost: self.cost as int }
    }
}

impl Position {
    /// The holding before any trade.
    pub open spec fn empty() -> Position {
        Position { quantity: 0, cost: 0 }
    }

    /// The average cost of a share held: cost over quantity, in whole
    /// millionths, and zero where nothing is held.
    pub open spec fn average(self) -> int {
        if self.quantity == 0 {
            0
        } else {
            self.cost / self.quantity
        }
    }

    /// The holding after `trade`, read as of `date`.
    ///
    /// A buy adds its shares, and their value to the cost. The cost stands
    /// for `average * quantity`, kept unrounded, so the new average is
    /// `(average * quantity + price * bought) / (quantity + bought)`. A sell
    /// takes its shares away at the average cost, which it leaves as it was;
    /// a sell of all the shares leaves no cost behind. There is no holding
    /// after a trade that cannot be read as of `date`, after a sell of more
    /// shares than are held, or after a buy that takes the shares over the
    /// limit.
    pub open spec fn after(self, trade: TradeView, date: int) -> Option<Position> {
        let shares = trade.effective_quantity(date);
        if !trade.representable(date) {
            None
        } else if trade.kind == TradeKind::Buy {
            if self.quantity + shares > SHARE_LIMIT {
                None
            } else {
                Some(
                    Position {
                        quantity: self.quantity + shares,
                        cost: self.cost + trade.effective_value(date),
                    },
                )
            }
        } else if shares > self.quantity {
            None
        } else if shares == self.quantity {
            Some(Position::empty())
        } else {
            Some(
                Position {
                    quantity: self.quantity - shares,
                    cost: self.cost * (self.quantity - shares) / self.quantity,
                },
            )
        }
    }

    /// What the replay keeps true of a holding: the shares are within the
    /// limit, no shares carry no cost, and the average is a price within its
    /// limit.
    pub open spec fn bounded(self) -> bool {
        &&& 0 <= self.quantity <= SHARE_LIMIT
        &&& 0 <= self.cost
        &&& self.quantity == 0 ==> self.cost == 0
        &&& self.quantity > 0 ==> self.cost < 0x1_0000_0000_0000_0000 * self.quantity
    }
}

/// The holding as of `date`: the replay, in ledger order, of every trade
/// dated strictly before `date`. `None` where some step of the replay has no
/// result.
pub open spec fn position(trades: Seq<TradeView>, date: int) -> Option<Position>
    decreases trades.len(),
{
    if trades.len() == 0 {
        Some(Position::empty())
    } else {
        match position(trades.drop_last(), date) {
            None => None,
            Some(before) => if trades.last().datetime.instant() < date {
                before.after(trades.last(), date)
            } else {
                Some(before)
            },
        }
    }
}

/// The shares bought less the shares sold, over every trade dated strictly
/// before `date`, each as it counts as of `date`.
pub open spec fn net_quantity(trades: Seq<TradeView>, date: int) -> int
    decreases trades.len(),
{
    if trades.len() == 0 {
        0
    } else if trades.last().datetime.instant() < date {
        if trades.last().kind == TradeKind::Buy {
            net_quantity(trades.drop_last(), date) + trades.last().effective_quantity(date)
        } else {
            net_quantity(trades.drop_last(), date) - trades.last().effective_quantity(date)
        }
    } else {
        net_quantity(trades.drop_last(), date)
    }
}

/// Whether every trade dated strictly before `date` can be read as of `date`.
pub open spec fn readable(trades: Seq<TradeView>, date: int) -> bool {
    forall|i: int|
        0 <= i < trades.len() && (#[trigger] trades[i]).datetime.instant() < date
            ==> trades[i].representable(date)
}

/// The shares held as of `date`: the shares bought less the shares sold.
/// `None` where a trade cannot be read, where more were sold than bought, or
/// where the shares are over the limit.
pub open spec fn quantity_as_of(trades: Seq<TradeView>, date: int) -> Option<int> {
    if readable(trades, date) && 0 <= net_quantity(trades, date) <= SHARE_LIMIT {
        Some(net_quantity(trades, date))
    } else {
        None
    }
}

/// The average cost of a share held as of `date`, where the ledger can be
/// replayed step by step.
pub open spec fn average_cost_as_of(trades: Seq<TradeView>, date: int) -> Option<int> {
    match position(trades, date) {
        Some(p) => Some(p.average()),
        None => None,
    }
}

/// A replay that has failed on a prefix of the ledger has failed.
pub proof fn lemma_failure_persists(trades: Seq<TradeView>, date: int, i: int)
    requires
        0 <= i <= trades.len(),
        position(trades.take(i), date) is None,
    ensures
        position(trades, date) is None,
    decreases trades.len() - i,
{
    if i == trades.len() {
        assert(trades.take(i) =~= trades);
    } else {
        assert(trades.drop_last().take(i) =~= trades.take(i));
        lemma_failure_persists(trades.drop_last(), date, i);
    }
}

/// Whether trade `x` as of date `dx` does to a holding what trade `y` does
/// as of date `dy`.
pub open spec fn same_effect(x: TradeView, dx: int, y: TradeView, dy: int) -> bool {
    &&& x.kind == y.kind
    &&& x.representable(dx) == y.representable(dy)
    &&& x.effective_quantity(dx) == y.effective_quantity(dy)
    &&& x.effective_value(dx) == y.effective_value(dy)
}

/// Two replays end in the same holding where they count the same trades,
/// one by one, with the same effect.
pub proof fn lemma_position_agrees(a: Seq<TradeView>, da: int, b: Seq<TradeView>, db: int)
    requires
        a.len() == b.len(),
        forall|i: int|
            0 <= i < a.len() ==> ((#[trigger] a[i]).datetime.instant() < da) == ((
            #[trigger] b[i]).datetime.instant() < db),
        forall|i: int|
            0 <= i < a.len() && (#[trigger] a[i]).datetime.instant() < da ==> same_effect(
                a[i],
                da,
                #[trigger] b[i],
                db,
            ),
    ensures
        position(a, da) == position(b, db),
    decreases a.len(),
{
    if a.len() > 0 {
        assert forall|i: int| 0 <= i < a.drop_last().len() implies ((
        #[trigger] a.drop_last()[i]).datetime.instant() < da) == ((
        #[trigger] b.drop_last()[i]).datetime.instant() < db) by {
            assert(a.drop_last()[i] == a[i] && b.drop_last()[i] == b[i]);
        }
        assert forall|i: int|
            0 <= i < a.drop_last().len() && (#[trigger] a.drop_last()[i]).datetime.instant()
                < da implies same_effect(a.drop_last()[i], da, #[trigger] b.drop_last()[i], db) by {
            assert(a.drop_last()[i] == a[i] && b.drop_last()[i] == b[i]);
        }
        lemma_position_agrees(a.drop_last(), da, b.drop_last(), db);
        assert(a.last() == a[a.len() - 1] && b.last() == b[b.len() - 1]);
    }
}

/// A replay passes over the end of a ledger in which no trade is dated
/// before the date.
pub proof fn lemma_position_skips(trades: Seq<TradeView>, date: int, k: int)
    requires
        0 <= k <= trades.len(),
        forall|j: int| k <= j < trades.len() ==> (#[trigger] trades[j]).datetime.instant() >= date,
    ensures
        position(trades, date) == position(trades.take(k), date),
    decreases trades.len(),
{
    if k == trades.len() {
        assert(trades.take(k) =~= trades);
    } else {
        assert(trades.last() == trades[trades.len() - 1]);
        assert forall|j: int| k <= j < trades.drop_last().len() implies (
        #[trigger] trades.drop_last()[j]).datetime.instant() >= date by {
            assert(trades.drop_last()[j] == trades[j]);
        }
        lemma_position_skips(trades.drop_last(), date, k);
        assert(trades.drop_last().take(k) =~= trades.take(k));
    }
}

/// Where the replay ends in a holding, it holds the shares bought less the
/// shares sold.
pub proof fn lemma_position_quantity(trades: Seq<TradeView>, date: int)
    requires
        position(trades, date) is Some,
    ensures
        readable(trades, date),
        net_quantity(trades, date) == position(trades, date)->0.quantity,
        quantity_as_of(trades, date) == Some(position(trades, date)->0.quantity),
    decreases trades.len(),
{
    lemma_position_bounded(trades, date);
    if trades.len() > 0 {
        let rest = trades.drop_last();
        lemma_position_quantity(rest, date);
        assert forall|i: int|
            0 <= i < trades.len() && (#[trigger] trades[i]).datetime.instant() < date implies
            trades[i].representable(date) by {
            if i < trades.len() - 1 {
                assert(rest[i] == trades[i]);
            }
        }
    }
}

/// The shares bought less the shares sold are the same in two ledgers that
/// count the same trades, one by one, with the same effect.
pub proof fn lemma_quantity_agrees(a: Seq<TradeView>, da: int, b: Seq<TradeView>, db: int)
    requires
        a.len() == b.len(),
        forall|i: int|
            0 <= i < a.len() ==> ((#[trigger] a[i]).datetime.instant() < da) == ((
            #[trigger] b[i]).datetime.instant() < db),
        forall|i: int|
            0 <= i < a.len() && (#[trigger] a[i]).datetime.instant() < da ==> same_effect(
                a[i],
                da,
                #[trigger] b[i],
                db,
            ),
    ensures
        net_quantity(a, da) == net_quantity(b, db),
        readable(a, da) == readable(b, db),
        quantity_as_of(a, da) == quantity_as_of(b, db),
    decreases a.len(),
{
    if a.len() > 0 {
        assert forall|i: int| 0 <= i < a.drop_last().len() implies ((
        #[trigger] a.drop_last()[i]).datetime.instant() < da) == ((
        #[trigger] b.drop_last()[i]).datetime.instant() < db) by {
            assert(a.drop_last()[i] == a[i] && b.drop_last()[i] == b[i]);
        }
        assert forall|i: int|
            0 <= i < a.drop_last().len() && (#[trigger] a.drop_last()[i]).datetime.instant()
                < da implies same_effect(a.drop_last()[i], da, #[trigger] b.drop_last()[i], db) by {
            assert(a.drop_last()[i] == a[i] && b.drop_last()[i] == b[i]);
        }
        lemma_quantity_agrees(a.drop_last(), da, b.drop_last(), db);
        assert(a.last() == a[a.len() - 1] && b.last() == b[b.len() - 1]);
    }
    if readable(a, da) {
        assert forall|i: int|
            0 <= i < b.len() && (#[trigger] b[i]).datetime.instant() < db implies
            b[i].representable(db) by {
            assert(same_effect(a[i], da, b[i], db));
        }
    }
    if readable(b, db) {
        assert forall|i: int|
            0 <= i < a.len() && (#[trigger] a[i]).datetime.instant() < da implies
            a[i].representable(da) by {
            assert(same_effect(a[i], da, b[i], db));
        }
    }
}

/// The value of a trade that can be read is less than the price limit for
/// each of its shares.
pub proof fn lemma_value_bounded(trade: TradeView, date: int)
    requires
        trade.representable(date),
    ensures
        0 <= trade.effective_quantity(date),
        0 <= trade.effective_value(date),
        trade.effective_quantity(date) == 0 ==> trade.effective_value(date) == 0,
        trade.effective_value(date) < 0x1_0000_0000_0000_0000 * trade.effective_quantity(date)
            || trade.effective_quantity(date) == 0,
{
    let n = trade.numerator(date);
    let d = trade.denominator(date);
    let shares = trade.effective_quantity(date);
    let scaled = trade.price * d;
    let limit = 0x1_0000_0000_0000_0000int;
    assert(shares >= 0) by (nonlinear_arith)
        requires
            shares == trade.quantity * n / d,
            trade.quantity >= 0,
            n >= 1,
            d >= 1,
    ;
    assert(scaled >= 0) by (nonlinear_arith)
        requires
            scaled == trade.price * d,
            trade.price >= 0,
            d >= 1,
    ;
    assert(scaled < limit * n) by (nonlinear_arith)
        requires
            scaled / n < limit,
            n >= 1,
            scaled >= 0,
    ;
    assert(scaled * shares / n >= 0 && (shares == 0 ==> scaled * shares / n == 0) && (shares > 0
        ==> scaled * shares / n < limit * shares)) by (nonlinear_arith)
        requires
            scaled < limit * n,
            scaled >= 0,
            shares >= 0,
            n >= 1,
    ;
}

/// A step of the replay keeps a holding bounded.
pub proof fn lemma_after_bounded(before: Position, trade: TradeView, date: int)
    requires
        before.bounded(),
        before.after(trade, date) is Some,
    ensures
        before.after(trade, date)->0.bounded(),
{
    lemma_value_bounded(trade, date);
    let shares = trade.effective_quantity(date);
    let limit = 0x1_0000_0000_0000_0000int;
    if trade.kind == TradeKind::Buy {
        assert(limit * (before.quantity + shares) == limit * before.quantity + limit * shares)
            by (nonlinear_arith);
    } else if shares < before.quantity {
        let left = before.quantity - shares;
        assert(0 <= before.cost * left / before.quantity < limit * left) by (nonlinear_arith)
            requires
                0 <= before.cost < limit * before.quantity,
                0 < left,
                left <= before.quantity,
        ;
    }
}

/// Every holding that the replay reaches is bounded.
pub proof fn lemma_position_bounded(trades: Seq<TradeView>, date: int)
    requires
        position(trades, date) is Some,
    ensures
        position(trades, date)->0.bounded(),
    decreases trades.len(),
{
    if trades.len() > 0 {
        lemma_position_bounded(trades.drop_last(), date);
        if trades.last().datetime.instant() < date {
            lemma_after_bounded(position(trades.drop_last(), date)->0, trades.last(), date);
        }
    }
}

impl Holding {
    /// The holding before any trade.
    pub fn empty() -> (holding: Holding)
        ensures
            holding@ == Position::empty(),
    {
        Holding { quantity: 0, cost: 0 }
    }

    /// The average cost of a share held, in whole millionths of the currency
    /// unit; zero where nothing is held.
    pub(crate) fn average(&self) -> (average: u64)
        requires
            self@.bounded(),
        ensures
            average == self@.average(),
    {
        if self.quantity == 0 {
            0
        } else {
            let average: u128 = self.cost / self.quantity as u128;
            assert(average < 0x1_0000_0000_0000_0000) by (nonlinear_arith)
                requires
                    average == self.cost as int / self.quantity as int,
                    self.cost < 0x1_0000_0000_0000_0000 * self.quantity,
                    self.quantity > 0,
            ;
            average as u64
        }
    }

    /// The holding after `trade`, read as of `datetime`, where there is one.
    pub(crate) fn after(&self, trade: &Trade, datetime: &Timestamp) -> (next: Option<Holding>)
        requires
            self@.bounded(),
        ensures
            match self@.after(trade@, datetime.instant()) {
                Some(p) => next matches Some(h) && h@ == p && p.bounded(),
                None => next is None,
            },
    {
        let ghost date = datetime.instant();
        let effective = match trade.effective(datetime) {
            Some(e) => e,
            None => {
                return None;
            },
        };
        proof {
            lemma_value_bounded(trade@, date);
            if self@.after(trade@, date) is Some {
                lemma_after_bounded(self@, trade@, date);
            }
        }
        match trade.kind {
            TradeKind::Buy => {
                let shares: u64 = self.quantity as u64 + effective.quantity as u64;
                if shares > SHARE_LIMIT as u64 {
                    None
                } else {
                    assert(self.cost + effective.value < 0x1_0000_0000_0000_0000 * shares + 1)
                        by (nonlinear_arith)
                        requires
                            self.quantity == 0 ==> self.cost == 0,
                            self.quantity > 0 ==> self.cost < 0x1_0000_0000_0000_0000
                                * self.quantity,
                            effective.quantity == 0 ==> effective.value == 0,
                            effective.quantity > 0 ==> effective.value < 0x1_0000_0000_0000_0000
                                * effective.quantity,
                            shares == self.quantity + effective.quantity,
                    ;
                    assert(0x1_0000_0000_0000_0000 * shares <= 0x1_0000_0000_0000_0000
                        * 0xffff_ffff) by (nonlinear_arith)
                        requires
                            shares <= 0xffff_ffff,
                    ;
                    Some(
                        Holding { quantity: shares as u32, cost: self.cost + effective.value },
                    )
                }
            },
            TradeKind::Sell => {
                if effective.quantity > self.quantity {
                    None
                } else if effective.quantity == self.quantity {
                    Some(Holding::empty())
                } else {
                    let left: u32 = self.quantity - effective.quantity;
                    assert(self.cost * left < 0x1_0000_0000_0000_0000 * 0xffff_ffff * 0xffff_ffff)
                        by (nonlinear_arith)
                        requires
                            0 <= self.cost < 0x1_0000_0000_0000_0000 * self.quantity,
                            0 < left <= 0xffff_ffff,
                            0 < self.quantity <= 0xffff_ffff,
                    ;
                    let cost: u128 = self.cost * left as u128 / self.quantity as u128;
                    Some(Holding { quantity: left, cost })
                }
            },
        }
    }
}

} // verus!

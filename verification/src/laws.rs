//! Laws of the ledger: what holds of every portfolio, whatever it holds.

use crate::portfolio::{find, trades_of};
use crate::reorder::{after_order, after_orders, lemma_order_ledgers, positive, BuyOrder};
use crate::position::{
    average_cost_as_of, lemma_position_agrees, lemma_position_bounded, lemma_position_quantity,
    lemma_position_skips, lemma_quantity_agrees, lemma_value_bounded, net_quantity, position,
    quantity_as_of, readable, same_effect, Position,
};
use crate::stock::{
    adjust, adjusted, fresh, insert_sorted, lemma_insert_index, lemma_insert_sorted, sale_cost,
    sale_proceeds, sorted, StockView,
};
use crate::timestamp::Timestamp;
use crate::trade::{
    lemma_factor_between, lemma_factor_not_negative, lemma_factor_pushed, lemma_own_date,
    lemma_unadjusted, Ratio,
    Split, TradeKind, TradeView, SHARE_LIMIT,
};
use vstd::arithmetic::div_mod::{
    lemma_div_denominator, lemma_div_multiples_vanish, lemma_div_multiples_vanish_quotient,
    lemma_fundamental_div_mod, lemma_fundamental_div_mod_converse,
};
use vstd::prelude::*;

verus! {

/// Two buys of a symbol that had no ledger leave, as of any later date, the
/// shares of both, at an average cost of what both cost over the shares of
/// both: `(price * quantity + price' * quantity') / (quantity + quantity')`.
pub proof fn law_two_buys(
    stocks: Seq<StockView>,
    first: BuyOrder,
    second: BuyOrder,
    after: Timestamp,
)
    requires
        find(stocks, first.symbol) is None,
        second.symbol == first.symbol,
        first.quantity > 0,
        second.quantity > 0,
        first.datetime.instant() < after.instant(),
        second.datetime.instant() < after.instant(),
        first.quantity + second.quantity <= SHARE_LIMIT,
    ensures
        ({
            let bought = after_order(after_order(stocks, first), second);
            let held = trades_of(bought, first.symbol);
            let shares = first.quantity + second.quantity;
            let paid = first.price * first.quantity + second.price * second.quantity;
            &&& quantity_as_of(held, after.instant()) == Some(shares)
            &&& shares > 0 ==> average_cost_as_of(held, after.instant()) == Some(paid / shares)
            &&& position(held, after.instant()) == Some(Position { quantity: shares, cost: paid })
        }),
{
    let date = after.instant();
    let symbol = first.symbol;
    let earlier = fresh(TradeKind::Buy, first.quantity, first.price, first.datetime);
    let later = fresh(TradeKind::Buy, second.quantity, second.price, second.datetime);
    let once = after_order(stocks, first);
    let none = Seq::<TradeView>::empty();
    assert(once == stocks.push(StockView { symbol, trades: insert_sorted(none, earlier) }));
    assert(once.drop_last() =~= stocks);
    assert(find(once, symbol) == Some(stocks.len() as int));
    let one = none.push(earlier);
    assert(trades_of(once, symbol) == one);
    let twice = after_order(once, second);
    let two = insert_sorted(one, later);
    assert(twice == once.update(stocks.len() as int, StockView { symbol, trades: two }));
    assert(find(twice, symbol) == Some(stocks.len() as int));
    assert(trades_of(twice, symbol) == two);
    lemma_unadjusted(earlier, date);
    lemma_unadjusted(later, date);
    assert(one.drop_last() =~= none);
    assert(position(none, date) == Some(Position::empty()));
    if first.datetime.instant() <= second.datetime.instant() {
        assert(two == one.push(later));
        assert(two.drop_last() =~= one);
        assert(position(one, date) == Some(
            Position { quantity: first.quantity as int, cost: first.price * first.quantity },
        ));
    } else {
        assert(two == insert_sorted(none, later).push(earlier));
        let other = none.push(later);
        assert(two.drop_last() =~= other);
        assert(other.drop_last() =~= none);
        assert(position(other, date) == Some(
            Position { quantity: second.quantity as int, cost: second.price * second.quantity },
        ));
    }
    lemma_position_quantity(two, date);
}

/// The shares of all the buys.
pub open spec fn shares_ordered(orders: Seq<BuyOrder>) -> int
    decreases orders.len(),
{
    if orders.len() == 0 {
        0
    } else {
        shares_ordered(orders.drop_last()) + orders.last().quantity
    }
}

/// What all the buys cost: the sum of price times quantity.
pub open spec fn cost_ordered(orders: Seq<BuyOrder>) -> int
    decreases orders.len(),
{
    if orders.len() == 0 {
        0
    } else {
        cost_ordered(orders.drop_last()) + orders.last().price * orders.last().quantity
    }
}

/// Whether every buy is of `symbol` and dated before `date`.
pub open spec fn all_bought(orders: Seq<BuyOrder>, symbol: Seq<char>, date: int) -> bool {
    forall|i: int|
        0 <= i < orders.len() ==> (#[trigger] orders[i]).symbol == symbol
            && orders[i].datetime.instant() < date
}

/// The shares of the trades of a ledger.
pub open spec fn ledger_shares(trades: Seq<TradeView>) -> int
    decreases trades.len(),
{
    if trades.len() == 0 {
        0
    } else {
        ledger_shares(trades.drop_last()) + trades.last().quantity
    }
}

/// The sum of price times quantity over the trades of a ledger.
pub open spec fn ledger_cost(trades: Seq<TradeView>) -> int
    decreases trades.len(),
{
    if trades.len() == 0 {
        0
    } else {
        ledger_cost(trades.drop_last()) + trades.last().price * trades.last().quantity
    }
}

/// Whether the ledger holds nothing but buys without adjustments, dated
/// before `date`.
pub open spec fn only_buys(trades: Seq<TradeView>, date: int) -> bool {
    forall|i: int|
        0 <= i < trades.len() ==> {
            &&& (#[trigger] trades[i]).kind == TradeKind::Buy
            &&& trades[i].splits.len() == 0
            &&& trades[i].datetime.instant() < date
        }
}

/// A ledger of nothing but buys holds the shares of all of them, at what all
/// of them cost.
proof fn lemma_only_buys(trades: Seq<TradeView>, date: int)
    requires
        only_buys(trades, date),
        ledger_shares(trades) <= SHARE_LIMIT,
    ensures
        0 <= ledger_shares(trades),
        position(trades, date) == Some(
            Position { quantity: ledger_shares(trades), cost: ledger_cost(trades) },
        ),
    decreases trades.len(),
{
    if trades.len() > 0 {
        let rest = trades.drop_last();
        assert forall|i: int| 0 <= i < rest.len() implies {
            &&& (#[trigger] rest[i]).kind == TradeKind::Buy
            &&& rest[i].splits.len() == 0
            &&& rest[i].datetime.instant() < date
        } by {
            assert(rest[i] == trades[i]);
        }
        lemma_shares_not_negative(rest);
        lemma_only_buys(rest, date);
        assert(trades.last() == trades[trades.len() - 1]);
        lemma_unadjusted(trades.last(), date);
    }
}

/// The shares of a ledger are not negative.
proof fn lemma_shares_not_negative(trades: Seq<TradeView>)
    ensures
        0 <= ledger_shares(trades),
    decreases trades.len(),
{
    if trades.len() > 0 {
        lemma_shares_not_negative(trades.drop_last());
    }
}

/// A trade put into a ledger adds its shares and its cost to the sums.
proof fn lemma_sums_with(trades: Seq<TradeView>, trade: TradeView, at: int)
    requires
        0 <= at <= trades.len(),
    ensures
        ledger_shares(trades.insert(at, trade)) == ledger_shares(trades) + trade.quantity,
        ledger_cost(trades.insert(at, trade)) == ledger_cost(trades) + trade.price
            * trade.quantity,
    decreases trades.len() - at,
{
    let with = trades.insert(at, trade);
    if at == trades.len() {
        assert(with.drop_last() =~= trades);
        assert(with.last() == trade);
    } else {
        assert(with.drop_last() =~= trades.drop_last().insert(at, trade));
        assert(with.last() == trades.last());
        lemma_sums_with(trades.drop_last(), trade, at);
    }
}

/// The ledger that buys of a symbol without ledger leave: nothing but these
/// buys, in time order.
proof fn lemma_bought_ledger(
    stocks: Seq<StockView>,
    orders: Seq<BuyOrder>,
    symbol: Seq<char>,
    date: int,
)
    requires
        find(stocks, symbol) is None,
        all_bought(orders, symbol, date),
    ensures
        ({
            let held = trades_of(after_orders(stocks, orders), symbol);
            &&& sorted(held)
            &&& only_buys(held, date)
            &&& ledger_shares(held) == shares_ordered(orders)
            &&& ledger_cost(held) == cost_ordered(orders)
        }),
    decreases orders.len(),
{
    if orders.len() > 0 {
        let rest = orders.drop_last();
        let last = orders.last();
        assert(last == orders[orders.len() - 1]);
        assert forall|i: int| 0 <= i < rest.len() implies (#[trigger] rest[i]).symbol == symbol
            && rest[i].datetime.instant() < date by {
            assert(rest[i] == orders[i]);
        }
        lemma_bought_ledger(stocks, rest, symbol, date);
        let before = trades_of(after_orders(stocks, rest), symbol);
        let buy = fresh(TradeKind::Buy, last.quantity, last.price, last.datetime);
        lemma_order_ledgers(after_orders(stocks, rest), last, symbol);
        lemma_insert_sorted(before, buy);
        let at = lemma_insert_index(before, buy);
        lemma_sums_with(before, buy, at);
        let held = before.insert(at, buy);
        assert forall|i: int| 0 <= i < held.len() implies {
            &&& (#[trigger] held[i]).kind == TradeKind::Buy
            &&& held[i].splits.len() == 0
            &&& held[i].datetime.instant() < date
        } by {
            if i < at {
                assert(held[i] == before[i]);
            } else if i > at {
                assert(held[i] == before[i - 1]);
            }
        }
    }
}

/// Buys of a symbol that had no ledger leave, as of any later date, the
/// shares of all of them, at an average cost of what all of them cost over
/// the shares of all of them.
pub proof fn law_buys_add_up(stocks: Seq<StockView>, orders: Seq<BuyOrder>, after: Timestamp)
    requires
        orders.len() > 0,
        positive(orders),
        find(stocks, orders[0].symbol) is None,
        all_bought(orders, orders[0].symbol, after.instant()),
        shares_ordered(orders) <= SHARE_LIMIT,
    ensures
        ({
            let held = trades_of(after_orders(stocks, orders), orders[0].symbol);
            let shares = shares_ordered(orders);
            let paid = cost_ordered(orders);
            &&& quantity_as_of(held, after.instant()) == Some(shares)
            &&& shares > 0 ==> average_cost_as_of(held, after.instant()) == Some(paid / shares)
            &&& position(held, after.instant()) == Some(Position { quantity: shares, cost: paid })
        }),
{
    let symbol = orders[0].symbol;
    let held = trades_of(after_orders(stocks, orders), symbol);
    lemma_bought_ledger(stocks, orders, symbol, after.instant());
    lemma_only_buys(held, after.instant());
    lemma_position_quantity(held, after.instant());
}

/// Whether no trade of the ledger, and no adjustment of one, is dated from
/// `from` up to `to`, `to` itself left out.
pub open spec fn quiet(trades: Seq<TradeView>, from: int, to: int) -> bool {
    &&& forall|i: int| 0 <= i < trades.len() ==>
        !(from <= (#[trigger] trades[i]).datetime.instant() < to)
    &&& forall|i: int, j: int|
        0 <= i < trades.len() && 0 <= j < trades[i].splits.len() ==> !(from <= (
        #[trigger] trades[i].splits[j]).datetime.instant() < to)
}

/// A ledger is replayed to the same holding as of two dates between which
/// it is quiet.
pub proof fn lemma_quiet_position(trades: Seq<TradeView>, from: int, to: int)
    requires
        from <= to,
        quiet(trades, from, to),
    ensures
        position(trades, to) == position(trades, from),
{
    assert forall|i: int|
        0 <= i < trades.len() && (#[trigger] trades[i]).datetime.instant() < to implies same_effect(
        trades[i],
        to,
        trades[i],
        from,
    ) by {
        lemma_factor_between(trades[i].splits, from, to);
    }
    lemma_position_agrees(trades, to, trades, from);
}

/// A sell of all the shares held, where any are, leaves no share and no
/// average cost, as of every later date up to which the ledger is quiet.
pub proof fn law_full_sell_resets(
    trades: Seq<TradeView>,
    price: u64,
    datetime: Timestamp,
    later: Timestamp,
)
    requires
        sorted(trades),
        position(trades, datetime.instant()) is Some,
        position(trades, datetime.instant())->0.quantity > 0,
        datetime.instant() < later.instant(),
        quiet(trades, datetime.instant(), later.instant()),
    ensures
        ({
            let held = quantity_as_of(trades, datetime.instant())->0;
            let sold = insert_sorted(trades, fresh(TradeKind::Sell, held as u32, price, datetime));
            &&& 0 < held <= SHARE_LIMIT
            &&& quantity_as_of(sold, later.instant()) == Some(0int)
            &&& average_cost_as_of(sold, later.instant()) == Some(0int)
        }),
{
    let from = datetime.instant();
    let to = later.instant();
    let held = position(trades, from)->0;
    lemma_position_bounded(trades, from);
    lemma_position_quantity(trades, from);
    let sell = fresh(TradeKind::Sell, held.quantity as u32, price, datetime);
    let sold = insert_sorted(trades, sell);
    let at = lemma_insert_index(trades, sell);
    assert(sold.take(at + 1) =~= trades.take(at).push(sell));
    assert(sold.take(at + 1).drop_last() =~= trades.take(at));
    lemma_position_skips(sold, to, at + 1);
    lemma_position_skips(trades, from, at);
    assert forall|i: int| 0 <= i < trades.take(at).len() implies !(from <= (#[trigger] trades.take(
        at,
    )[i]).datetime.instant() < to) by {
        assert(trades.take(at)[i] == trades[i]);
    }
    assert forall|i: int, j: int|
        0 <= i < trades.take(at).len() && 0 <= j < trades.take(at)[i].splits.len() implies !(from
            <= (#[trigger] trades.take(at)[i].splits[j]).datetime.instant() < to) by {
        assert(trades.take(at)[i] == trades[i]);
        assert(trades[i].splits[j] == trades.take(at)[i].splits[j]);
    }
    lemma_quiet_position(trades.take(at), from, to);
    lemma_unadjusted(sell, to);
    lemma_position_quantity(sold, to);
}

/// A split leaves the holding as of every date up to its own as it was.
pub proof fn law_split_keeps_earlier(trades: Seq<TradeView>, split: Split, date: Timestamp)
    requires
        date.instant() <= split.datetime.instant(),
    ensures
        quantity_as_of(adjusted(trades, split), date.instant()) == quantity_as_of(
            trades,
            date.instant(),
        ),
        average_cost_as_of(adjusted(trades, split), date.instant()) == average_cost_as_of(
            trades,
            date.instant(),
        ),
        position(adjusted(trades, split), date.instant()) == position(trades, date.instant()),
{
    let after = adjusted(trades, split);
    let d = date.instant();
    assert forall|i: int|
        0 <= i < after.len() && (#[trigger] after[i]).datetime.instant() < d implies same_effect(
        after[i],
        d,
        #[trigger] trades[i],
        d,
    ) by {
        lemma_factor_pushed(trades[i].splits, split, d);
    }
    lemma_position_agrees(after, d, trades, d);
    lemma_quantity_agrees(after, d, trades, d);
}

/// Whether the trade counts whole shares as of `date`: the split factor
/// takes no fraction of a share away.
pub open spec fn whole(trade: TradeView, date: int) -> bool {
    (trade.quantity * trade.numerator(date)) % trade.denominator(date) == 0
}

/// Dividing twice is dividing by the product.
proof fn lemma_divide_twice(c: int, q: int, k: int)
    by (nonlinear_arith)
    requires
        c >= 0,
        q > 0,
        k > 0,
    ensures
        c / (k * q) == (c / q) / k,
        c / (q * k) == (c / q) / k,
{
    lemma_div_denominator(c, q, k);
}

/// A common factor of both parts of a quotient cancels.
proof fn lemma_cancel(a: int, b: int, k: int)
    requires
        a >= 0,
        b > 0,
        k > 0,
    ensures
        (a * k) / (b * k) == a / b,
        (k * a) / (k * b) == a / b,
{
    lemma_div_multiples_vanish_quotient(k, a, b);
    assert(a * k == k * a) by (nonlinear_arith);
    assert(b * k == k * b) by (nonlinear_arith);
}

/// Where one replay counts `k` times the shares of another, trade by trade,
/// at the same value, it ends with `k` times the shares at the same cost.
proof fn lemma_position_scaled(a: Seq<TradeView>, b: Seq<TradeView>, date: int, k: int)
    requires
        k >= 1,
        a.len() == b.len(),
        position(a, date) is Some,
        position(b, date) is Some,
        forall|i: int|
            0 <= i < a.len() ==> ((#[trigger] a[i]).datetime.instant() < date) == ((
            #[trigger] b[i]).datetime.instant() < date),
        forall|i: int|
            0 <= i < a.len() && (#[trigger] a[i]).datetime.instant() < date ==> {
                &&& a[i].kind == (#[trigger] b[i]).kind
                &&& b[i].effective_quantity(date) == k * a[i].effective_quantity(date)
                &&& b[i].effective_value(date) == a[i].effective_value(date)
            },
    ensures
        position(b, date)->0.quantity == k * position(a, date)->0.quantity,
        position(b, date)->0.cost == position(a, date)->0.cost,
    decreases a.len(),
{
    if a.len() > 0 {
        let a0 = a.drop_last();
        let b0 = b.drop_last();
        assert forall|i: int| 0 <= i < a0.len() implies
            ((#[trigger] a0[i]).datetime.instant() < date)
            == ((#[trigger] b0[i]).datetime.instant() < date) by {
            assert(a0[i] == a[i] && b0[i] == b[i]);
        }
        assert forall|i: int| 0 <= i < a0.len() &&
            (#[trigger] a0[i]).datetime.instant() < date implies {
            &&& a0[i].kind == (#[trigger] b0[i]).kind
            &&& b0[i].effective_quantity(date) == k * a0[i].effective_quantity(date)
            &&& b0[i].effective_value(date) == a0[i].effective_value(date)
        } by {
            assert(a0[i] == a[i] && b0[i] == b[i]);
        }
        lemma_position_scaled(a0, b0, date, k);
        let x = a.last();
        let y = b.last();
        assert(x == a[a.len() - 1] && y == b[b.len() - 1]);
        if x.datetime.instant() < date {
            let pa = position(a0, date)->0;
            let pb = position(b0, date)->0;
            lemma_position_bounded(a0, date);
            let sa = x.effective_quantity(date);
            let sb = y.effective_quantity(date);
            lemma_value_bounded(x, date);
            assert(k * (pa.quantity + sa) == k * pa.quantity + k * sa) by (nonlinear_arith);
            assert(k * (pa.quantity - sa) == k * pa.quantity - k * sa) by (nonlinear_arith);
            if x.kind == TradeKind::Sell && sa < pa.quantity {
                let left = pa.quantity - sa;
                assert(pa.cost * (k * left) == (pa.cost * left) * k) by (nonlinear_arith);
                assert(pa.cost * left >= 0) by (nonlinear_arith)
                    requires
                        pa.cost >= 0,
                        left >= 0,
                ;
                lemma_cancel(pa.cost * left, pa.quantity, k);
                assert(pa.quantity * k == k * pa.quantity) by (nonlinear_arith);
                assert(k * sa < k * pa.quantity) by (nonlinear_arith)
                    requires
                        sa < pa.quantity,
                        k >= 1,
                ;
            } else if x.kind == TradeKind::Sell {
                assert(sa == pa.quantity);
            }
        }
    }
}

/// Whether every trade dated before `date` is dated before `split` as well,
/// and counts whole shares as of `date`.
pub open spec fn settled(trades: Seq<TradeView>, split: int, date: int) -> bool {
    forall|i: int|
        0 <= i < trades.len() && (#[trigger] trades[i]).datetime.instant() < date ==> {
            &&& trades[i].datetime.instant() < split
            &&& whole(trades[i], date)
        }
}

/// What a forward split of `k` for one does to each trade that counts as of
/// a later date: it counts `k` times the shares, at the same value.
proof fn lemma_split_effect(trades: Seq<TradeView>, k: u32, datetime: Timestamp, date: int)
    requires
        k >= 1,
        datetime.instant() < date,
        settled(trades, datetime.instant(), date),
        readable(trades, date),
    ensures
        ({
            let split = Split { ratio: Ratio { numerator: k, denominator: 1 }, datetime };
            let after = adjusted(trades, split);
            forall|i: int|
                0 <= i < trades.len() && (#[trigger] trades[i]).datetime.instant() < date ==> {
                    &&& trades[i].kind == (#[trigger] after[i]).kind
                    &&& after[i].effective_quantity(date) == k * trades[i].effective_quantity(date)
                    &&& after[i].effective_value(date) == trades[i].effective_value(date)
                }
        }),
{
    let d = date;
    let split = Split { ratio: Ratio { numerator: k, denominator: 1 }, datetime };
    let after = adjusted(trades, split);
    assert forall|i: int|
        0 <= i < trades.len() && (#[trigger] trades[i]).datetime.instant() < d implies {
        &&& trades[i].kind == (#[trigger] after[i]).kind
        &&& after[i].effective_quantity(d) == k * trades[i].effective_quantity(d)
        &&& after[i].effective_value(d) == trades[i].effective_value(d)
    } by {
        let t = trades[i];
        assert(after[i] == adjust(t, split));
        lemma_factor_pushed(t.splits, split, d);
        lemma_factor_not_negative(t.splits, d);
        let n = t.numerator(d);
        let den = t.denominator(d);
        assert(t.representable(d));
        let e = t.effective_quantity(d);
        assert(t.quantity * n == e * den) by {
            lemma_fundamental_div_mod(t.quantity * n, den);
            assert(den * e == e * den) by (nonlinear_arith);
        }
        assert(t.quantity * (n * k) == (k * e) * den) by (nonlinear_arith)
            requires
                t.quantity * n == e * den,
        ;
        assert(den * 1 == den);
        lemma_div_multiples_vanish(k * e, den);
        assert(k * e >= 0) by (nonlinear_arith)
            requires
                k >= 1,
                e >= 0,
        ;
        lemma_value_bounded(t, d);
        assert(after[i].effective_quantity(d) == k * e);
        let scaled = t.price * den;
        assert(scaled >= 0) by (nonlinear_arith)
            requires
                scaled == t.price * den,
                t.price >= 0,
                den >= 1,
        ;
        assert(t.price * (den * 1) * (k * e) == (scaled * e) * k) by (nonlinear_arith)
            requires
                scaled == t.price * den,
        ;
        assert(scaled * e >= 0) by (nonlinear_arith)
            requires
                scaled >= 0,
                e >= 0,
        ;
        lemma_cancel(scaled * e, n, k as int);
    }
}

/// Where one ledger counts `k` times the shares of another, trade by trade,
/// it holds `k` times the shares bought less the shares sold.
proof fn lemma_quantity_scaled(a: Seq<TradeView>, b: Seq<TradeView>, date: int, k: int)
    requires
        a.len() == b.len(),
        forall|i: int|
            0 <= i < a.len() ==> ((#[trigger] a[i]).datetime.instant() < date) == ((
            #[trigger] b[i]).datetime.instant() < date),
        forall|i: int|
            0 <= i < a.len() && (#[trigger] a[i]).datetime.instant() < date ==> {
                &&& a[i].kind == (#[trigger] b[i]).kind
                &&& b[i].effective_quantity(date) == k * a[i].effective_quantity(date)
            },
    ensures
        net_quantity(b, date) == k * net_quantity(a, date),
    decreases a.len(),
{
    if a.len() > 0 {
        let a0 = a.drop_last();
        let b0 = b.drop_last();
        assert forall|i: int| 0 <= i < a0.len() implies ((#[trigger] a0[i]).datetime.instant()
            < date) == ((#[trigger] b0[i]).datetime.instant() < date) by {
            assert(a0[i] == a[i] && b0[i] == b[i]);
        }
        assert forall|i: int|
            0 <= i < a0.len() && (#[trigger] a0[i]).datetime.instant() < date implies {
            &&& a0[i].kind == (#[trigger] b0[i]).kind
            &&& b0[i].effective_quantity(date) == k * a0[i].effective_quantity(date)
        } by {
            assert(a0[i] == a[i] && b0[i] == b[i]);
        }
        lemma_quantity_scaled(a0, b0, date, k);
        assert(a.last() == a[a.len() - 1] && b.last() == b[b.len() - 1]);
        let rest = net_quantity(a0, date);
        let shares = a.last().effective_quantity(date);
        assert(k * (rest + shares) == k * rest + k * shares) by (nonlinear_arith);
        assert(k * (rest - shares) == k * rest - k * shares) by (nonlinear_arith);
    }
}

/// A forward split of `k` for one multiplies the shares held as of a later
/// date by `k`: where every trade dated before that date is dated before the
/// split and counts whole shares, and where the shares can be told both
/// without the split and with it.
pub proof fn law_split_scales_shares(
    trades: Seq<TradeView>,
    k: u32,
    datetime: Timestamp,
    date: Timestamp,
)
    requires
        k >= 1,
        datetime.instant() < date.instant(),
        settled(trades, datetime.instant(), date.instant()),
        quantity_as_of(trades, date.instant()) is Some,
        quantity_as_of(
            adjusted(trades, Split { ratio: Ratio { numerator: k, denominator: 1 }, datetime }),
            date.instant(),
        ) is Some,
    ensures
        quantity_as_of(
            adjusted(trades, Split { ratio: Ratio { numerator: k, denominator: 1 }, datetime }),
            date.instant(),
        ) == Some(k * quantity_as_of(trades, date.instant())->0),
{
    let split = Split { ratio: Ratio { numerator: k, denominator: 1 }, datetime };
    lemma_split_effect(trades, k, datetime, date.instant());
    lemma_quantity_scaled(trades, adjusted(trades, split), date.instant(), k as int);
}

/// A forward split of `k` for one leaves the cost of the shares held as of a
/// later date as it was, and so divides their average cost by `k`: where
/// every trade dated before that date is dated before the split and counts
/// whole shares, and where the ledger can be replayed both without the split
/// and with it.
pub proof fn law_split_scales_cost(
    trades: Seq<TradeView>,
    k: u32,
    datetime: Timestamp,
    date: Timestamp,
)
    requires
        k >= 1,
        datetime.instant() < date.instant(),
        settled(trades, datetime.instant(), date.instant()),
        position(trades, date.instant()) is Some,
        position(
            adjusted(trades, Split { ratio: Ratio { numerator: k, denominator: 1 }, datetime }),
            date.instant(),
        ) is Some,
    ensures
        ({
            let split = Split { ratio: Ratio { numerator: k, denominator: 1 }, datetime };
            let before = position(trades, date.instant())->0;
            let after = position(adjusted(trades, split), date.instant())->0;
            &&& average_cost_as_of(adjusted(trades, split), date.instant()) == Some(
                average_cost_as_of(trades, date.instant())->0 / (k as int),
            )
            &&& after.quantity == k * before.quantity
            &&& after.cost == before.cost
        }),
{
    let d = date.instant();
    let split = Split { ratio: Ratio { numerator: k, denominator: 1 }, datetime };
    let after = adjusted(trades, split);
    lemma_position_quantity(trades, d);
    lemma_split_effect(trades, k, datetime, d);
    lemma_position_scaled(trades, after, d, k as int);
    let pa = position(trades, d)->0;
    lemma_position_bounded(trades, d);
    if pa.quantity > 0 {
        lemma_divide_twice(pa.cost, pa.quantity, k as int);
        assert(k * pa.quantity > 0) by (nonlinear_arith)
            requires
                k >= 1,
                pa.quantity > 0,
        ;
    } else {
        assert(k * pa.quantity == 0) by (nonlinear_arith)
            requires
                pa.quantity == 0,
        ;
    }
}

/// A sell that leaves shares leaves their average cost as it was.
pub proof fn law_partial_sell_keeps_average(held: Position, trade: TradeView, date: int)
    requires
        held.bounded(),
        trade.kind == TradeKind::Sell,
        trade.representable(date),
        trade.effective_quantity(date) < held.quantity,
    ensures
        held.after(trade, date) matches Some(left) && left.quantity == held.quantity
            - trade.effective_quantity(date) && left.average() == held.average(),
{
    lemma_value_bounded(trade, date);
    let left = held.quantity - trade.effective_quantity(date);
    lemma_share_of_cost(held.cost, held.quantity, left);
}

/// The cost of a part of a holding, shared out again over that part, is the
/// average cost of the whole.
proof fn lemma_share_of_cost(cost: int, quantity: int, left: int)
    requires
        cost >= 0,
        0 < left <= quantity,
    ensures
        (cost * left / quantity) / left == cost / quantity,
{
    let average = cost / quantity;
    let rest = cost % quantity;
    lemma_fundamental_div_mod(cost, quantity);
    assert(cost * left == quantity * (average * left) + rest * left) by (nonlinear_arith)
        requires
            cost == quantity * average + rest,
    ;
    assert(0 <= rest * left < quantity * left) by (nonlinear_arith)
        requires
            0 <= rest < quantity,
            0 < left,
    ;
    let part = rest * left / quantity;
    let over = (rest * left) % quantity;
    lemma_fundamental_div_mod(rest * left, quantity);
    assert(0 <= part < left) by (nonlinear_arith)
        requires
            0 <= rest * left < quantity * left,
            rest * left == quantity * part + over,
            0 <= over < quantity,
    ;
    assert(cost * left == (average * left + part) * quantity + over) by (nonlinear_arith)
        requires
            cost * left == quantity * (average * left) + rest * left,
            rest * left == quantity * part + over,
    ;
    lemma_fundamental_div_mod_converse(
        cost * left,
        quantity,
        average * left + part,
        over,
    );
    lemma_fundamental_div_mod_converse(
        average * left + part,
        left,
        average,
        part,
    );
}

/// What a sell adds to the profit of its month, what it brought in less what
/// its shares had cost, is `(price - average) * quantity`: over its own
/// effective price and quantity, and the average cost, all as of its date.
pub proof fn law_profit_of_a_sell(trades: Seq<TradeView>, sell: TradeView)
    requires
        sell.wf(),
        position(trades, sell.datetime.instant()) is Some,
    ensures
        ({
            let date = sell.datetime.instant();
            let average = average_cost_as_of(trades, date)->0;
            &&& sell.effective_price(date) == sell.price
            &&& sell.effective_quantity(date) == sell.quantity
            &&& sale_proceeds(sell) == sell.effective_price(date) * sell.effective_quantity(date)
            &&& sale_proceeds(sell) - sale_cost(trades, sell) == (sell.effective_price(date)
                - average) * sell.effective_quantity(date)
        }),
{
    let date = sell.datetime.instant();
    let average = average_cost_as_of(trades, date)->0;
    lemma_own_date(sell);
    assert(sell.price * sell.quantity - average * sell.quantity == (sell.price - average)
        * sell.quantity) by (nonlinear_arith);
}

} // verus!

//! Buys in any order: also where buys of one symbol bear the same instant,
//! and so stand in the ledger in the order in which they were recorded.

use crate::alike::{
    alike, lemma_alike_chain, lemma_alike_itself, lemma_alike_months, lemma_alike_position,
    lemma_insert_alike, lemma_tied_buys_alike,
};
use crate::position::position;
use crate::portfolio::{
    after_buy, after_sell, find, lemma_find, lemma_find_at, portfolio_cost, portfolio_replayable,
    portfolio_sales, trades_of, wf, with_ledger,
};
use crate::reorder::{
    after_order, after_orders, lemma_insert_commutes, lemma_order_ledgers, lemma_order_wf,
    lemma_trade_wf,
    lemma_orders_wf, lemma_other_ledger, lemma_positive_permuted, lemma_positive_without,
    lemma_same_ledger, lemma_sums_without, lemma_without, positive, same_ledger, same_months,
    BuyOrder,
};
use crate::stock::{fresh, insert_sorted, sales_replayable, sorted, StockView};
use crate::timestamp::Timestamp;
use crate::trade::{TradeKind, TradeView};
use vstd::prelude::*;

verus! {

/// Whether two portfolios hold ledgers that are alike for `symbol`, or both
/// none.
pub open spec fn like_ledger(a: Seq<StockView>, b: Seq<StockView>, symbol: Seq<char>) -> bool {
    &&& (find(a, symbol) is Some) == (find(b, symbol) is Some)
    &&& alike(trades_of(a, symbol), trades_of(b, symbol))
}

/// Whether two portfolios hold, for every symbol, ledgers that are alike:
/// that differ at most in the order of buys of the same instant.
pub open spec fn like_ledgers(a: Seq<StockView>, b: Seq<StockView>) -> bool {
    forall|symbol: Seq<char>| #[trigger] like_ledger(a, b, symbol)
}

/// The ledger of every symbol of a well-formed portfolio is in time order.
proof fn lemma_ledger_sorted(stocks: Seq<StockView>, symbol: Seq<char>)
    requires
        wf(stocks),
    ensures
        sorted(trades_of(stocks, symbol)),
{
    lemma_find(stocks, symbol);
    match find(stocks, symbol) {
        Some(i) => {
            assert(stocks[i].wf());
        },
        None => {},
    }
}

/// Every portfolio holds ledgers like its own.
proof fn lemma_like_itself(a: Seq<StockView>)
    ensures
        like_ledgers(a, a),
{
    assert forall|symbol: Seq<char>| #[trigger] like_ledger(a, a, symbol) by {
        lemma_alike_itself(trades_of(a, symbol));
    }
}

/// Holding ledgers that are alike goes both ways, and passes on.
proof fn lemma_like_chain(a: Seq<StockView>, b: Seq<StockView>, c: Seq<StockView>)
    requires
        like_ledgers(a, b),
        like_ledgers(b, c),
    ensures
        like_ledgers(a, c),
        like_ledgers(b, a),
{
    assert forall|symbol: Seq<char>| #[trigger] like_ledger(a, c, symbol) by {
        assert(like_ledger(a, b, symbol));
        assert(like_ledger(b, c, symbol));
        lemma_alike_chain(trades_of(a, symbol), trades_of(b, symbol), trades_of(c, symbol));
    }
    assert forall|symbol: Seq<char>| #[trigger] like_ledger(b, a, symbol) by {
        assert(like_ledger(a, b, symbol));
        assert(like_ledger(b, c, symbol));
        lemma_alike_chain(trades_of(a, symbol), trades_of(b, symbol), trades_of(c, symbol));
    }
}

/// The same trade, put into the ledgers of a symbol of two portfolios that
/// hold ledgers that are alike, leaves them holding ledgers that are alike.
proof fn lemma_trade_congruent(
    a: Seq<StockView>,
    b: Seq<StockView>,
    symbol: Seq<char>,
    trade: TradeView,
)
    requires
        wf(a),
        wf(b),
        like_ledgers(a, b),
    ensures
        like_ledgers(
            with_ledger(a, symbol, insert_sorted(trades_of(a, symbol), trade)),
            with_ledger(b, symbol, insert_sorted(trades_of(b, symbol), trade)),
        ),
{
    let in_a = insert_sorted(trades_of(a, symbol), trade);
    let in_b = insert_sorted(trades_of(b, symbol), trade);
    let after_a = with_ledger(a, symbol, in_a);
    let after_b = with_ledger(b, symbol, in_b);
    assert forall|other: Seq<char>| #[trigger] like_ledger(after_a, after_b, other) by {
        assert(like_ledger(a, b, other));
        assert(like_ledger(a, b, symbol));
        if other == symbol {
            lemma_same_ledger(a, symbol, in_a);
            lemma_same_ledger(b, symbol, in_b);
            lemma_ledger_sorted(a, symbol);
            lemma_ledger_sorted(b, symbol);
            lemma_insert_alike(trades_of(a, symbol), trades_of(b, symbol), trade);
        } else {
            lemma_other_ledger(a, symbol, in_a, other);
            lemma_other_ledger(b, symbol, in_b, other);
        }
    }
}

/// Two portfolios that hold ledgers that are alike hold ledgers that are
/// alike, and are well formed, after the same buy or sell of at least one
/// share. What a sell returns depends on the holding as of its date alone,
/// so it is the same in both.
pub proof fn law_like_ledgers_stay(
    a: Seq<StockView>,
    b: Seq<StockView>,
    symbol: Seq<char>,
    quantity: u32,
    price: u64,
    datetime: Timestamp,
)
    requires
        wf(a),
        wf(b),
        like_ledgers(a, b),
        quantity > 0,
    ensures
        like_ledgers(
            after_buy(a, symbol, quantity, price, datetime),
            after_buy(b, symbol, quantity, price, datetime),
        ),
        like_ledgers(
            after_sell(a, symbol, quantity, price, datetime),
            after_sell(b, symbol, quantity, price, datetime),
        ),
        wf(after_buy(a, symbol, quantity, price, datetime)),
        wf(after_buy(b, symbol, quantity, price, datetime)),
        wf(after_sell(a, symbol, quantity, price, datetime)),
        wf(after_sell(b, symbol, quantity, price, datetime)),
        position(trades_of(a, symbol), datetime.instant()) == position(
            trades_of(b, symbol),
            datetime.instant(),
        ),
{
    let buy = fresh(TradeKind::Buy, quantity, price, datetime);
    let sell = fresh(TradeKind::Sell, quantity, price, datetime);
    lemma_trade_congruent(a, b, symbol, buy);
    lemma_trade_congruent(a, b, symbol, sell);
    lemma_trade_wf(a, symbol, buy);
    lemma_trade_wf(b, symbol, buy);
    lemma_trade_wf(a, symbol, sell);
    lemma_trade_wf(b, symbol, sell);
    assert(like_ledger(a, b, symbol));
    lemma_alike_position(trades_of(a, symbol), trades_of(b, symbol), datetime.instant());
}

/// Two buys leave ledgers that are alike, whichever is recorded first.
proof fn lemma_order_swap(stocks: Seq<StockView>, x: BuyOrder, y: BuyOrder)
    requires
        wf(stocks),
    ensures
        like_ledgers(
            after_order(after_order(stocks, x), y),
            after_order(after_order(stocks, y), x),
        ),
{
    let a = after_order(after_order(stocks, x), y);
    let b = after_order(after_order(stocks, y), x);
    let bx = fresh(TradeKind::Buy, x.quantity, x.price, x.datetime);
    let by = fresh(TradeKind::Buy, y.quantity, y.price, y.datetime);
    assert forall|symbol: Seq<char>| #[trigger] like_ledger(a, b, symbol) by {
        lemma_order_ledgers(stocks, x, symbol);
        lemma_order_ledgers(stocks, y, symbol);
        lemma_order_ledgers(after_order(stocks, x), y, symbol);
        lemma_order_ledgers(after_order(stocks, y), x, symbol);
        if symbol == x.symbol && symbol == y.symbol {
            let held = trades_of(stocks, symbol);
            lemma_ledger_sorted(stocks, symbol);
            if x.datetime.instant() == y.datetime.instant() {
                lemma_tied_buys_alike(held, bx, by);
            } else {
                lemma_insert_commutes(held, bx, by);
                lemma_alike_itself(trades_of(a, symbol));
            }
        } else {
            lemma_alike_itself(trades_of(a, symbol));
        }
    }
}

/// A buy among others leaves ledgers that are alike where it is, and where
/// it is recorded after all the others.
proof fn lemma_order_last(stocks: Seq<StockView>, orders: Seq<BuyOrder>, j: int)
    requires
        wf(stocks),
        positive(orders),
        0 <= j < orders.len(),
    ensures
        like_ledgers(
            after_orders(stocks, orders),
            after_order(after_orders(stocks, orders.remove(j)), orders[j]),
        ),
    decreases orders.len(),
{
    let moved = orders[j];
    if j == orders.len() - 1 {
        assert(orders.remove(j) =~= orders.drop_last());
        assert(orders.last() == moved);
        lemma_like_itself(after_orders(stocks, orders));
    } else {
        let last = orders.last();
        let rest = orders.drop_last();
        assert(rest[j] == moved);
        lemma_positive_without(orders, j);
        lemma_positive_without(rest, j);
        lemma_order_last(stocks, rest, j);
        let others = rest.remove(j);
        let base = after_orders(stocks, others);
        lemma_orders_wf(stocks, others);
        lemma_orders_wf(stocks, rest);
        lemma_order_wf(base, moved);
        lemma_trade_congruent(
            after_orders(stocks, rest),
            after_order(base, moved),
            last.symbol,
            fresh(TradeKind::Buy, last.quantity, last.price, last.datetime),
        );
        lemma_order_swap(base, moved, last);
        lemma_like_chain(
            after_orders(stocks, orders),
            after_order(after_order(base, moved), last),
            after_order(after_order(base, last), moved),
        );
        assert(others.push(last) =~= orders.remove(j));
        assert(orders.remove(j).drop_last() =~= others);
        assert(orders.remove(j).last() == last);
    }
}

/// Buys leave ledgers that are alike in whatever order they are recorded.
proof fn lemma_orders_permuted(stocks: Seq<StockView>, a: Seq<BuyOrder>, b: Seq<BuyOrder>)
    requires
        wf(stocks),
        positive(a),
        a.to_multiset() == b.to_multiset(),
    ensures
        like_ledgers(after_orders(stocks, a), after_orders(stocks, b)),
    decreases b.len(),
{
    broadcast use vstd::seq_lib::group_to_multiset_ensures;

    a.to_multiset_ensures();
    b.to_multiset_ensures();
    if b.len() == 0 {
        assert(a.len() == 0);
        lemma_like_itself(stocks);
    } else {
        let y = b.last();
        assert(b.contains(y));
        assert(a.to_multiset().count(y) > 0);
        assert(a.contains(y));
        let j = choose|j: int| 0 <= j < a.len() && a[j] == y;
        let a0 = a.remove(j);
        let b0 = b.drop_last();
        assert(b0 =~= b.remove(b.len() - 1));
        assert(a0.to_multiset() == b0.to_multiset());
        lemma_positive_without(a, j);
        lemma_positive_permuted(a0, b0);
        lemma_orders_permuted(stocks, a0, b0);
        lemma_order_last(stocks, a, j);
        lemma_orders_wf(stocks, a0);
        lemma_orders_wf(stocks, b0);
        lemma_trade_congruent(
            after_orders(stocks, a0),
            after_orders(stocks, b0),
            y.symbol,
            fresh(TradeKind::Buy, y.quantity, y.price, y.datetime),
        );
        lemma_like_chain(
            after_orders(stocks, a),
            after_order(after_orders(stocks, a0), y),
            after_orders(stocks, b),
        );
    }
}

/// Two well-formed portfolios that hold ledgers that are alike come to the
/// same sums.
proof fn lemma_like_sums(a: Seq<StockView>, b: Seq<StockView>, year: int, month: int)
    requires
        wf(a),
        wf(b),
        like_ledgers(a, b),
    ensures
        a.len() == b.len(),
        portfolio_sales(a, a.len() as int, year, month) == portfolio_sales(
            b,
            b.len() as int,
            year,
            month,
        ),
        portfolio_cost(a, a.len() as int, year, month) == portfolio_cost(
            b,
            b.len() as int,
            year,
            month,
        ),
    decreases a.len(),
{
    if a.len() == 0 {
        if b.len() > 0 {
            lemma_find_at(b, 0);
            assert(like_ledger(a, b, b[0].symbol));
        }
    } else {
        let n = a.len() as int;
        let symbol = a[n - 1].symbol;
        lemma_find_at(a, n - 1);
        assert(like_ledger(a, b, symbol));
        lemma_find(b, symbol);
        let j = find(b, symbol)->0;
        let a0 = a.drop_last();
        let b0 = b.remove(j);
        assert(a0 =~= a.remove(n - 1));
        assert forall|other: Seq<char>| #[trigger] like_ledger(a0, b0, other) by {
            lemma_without(a, n - 1, other);
            lemma_without(b, j, other);
            assert(like_ledger(a, b, other));
            if other == symbol {
                lemma_alike_itself(trades_of(a0, other));
            } else {
                assert(same_ledger(a0, a, other));
                assert(same_ledger(b0, b, other));
            }
        }
        lemma_without(a, n - 1, symbol);
        lemma_without(b, j, symbol);
        lemma_like_sums(a0, b0, year, month);
        lemma_sums_without(a, n - 1, year, month);
        lemma_sums_without(b, j, year, month);
        let mine = a[n - 1].trades;
        let other = b[j].trades;
        assert(alike(mine, other));
        lemma_alike_months(mine, other, mine.len() as int, year, month);
    }
}

/// Where every ledger of one portfolio is like a ledger of another, and the
/// other can be replayed, so can the one.
proof fn lemma_like_replayable(a: Seq<StockView>, b: Seq<StockView>, year: int)
    requires
        wf(a),
        like_ledgers(a, b),
        portfolio_replayable(b, year),
    ensures
        portfolio_replayable(a, year),
{
    assert forall|s: int| 0 <= s < a.len() implies sales_replayable(
        (#[trigger] a[s]).trades,
        a[s].trades.len() as int,
        year,
    ) by {
        lemma_find_at(a, s);
        assert(like_ledger(a, b, a[s].symbol));
        lemma_find(b, a[s].symbol);
        let j = find(b, a[s].symbol)->0;
        assert(sales_replayable(b[j].trades, b[j].trades.len() as int, year));
        lemma_alike_months(a[s].trades, b[j].trades, a[s].trades.len() as int, year, 1);
    }
}

/// Two well-formed portfolios that hold ledgers that are alike come to the
/// same monthly summaries.
pub proof fn law_like_ledgers_same_months(a: Seq<StockView>, b: Seq<StockView>, year: int)
    requires
        wf(a),
        wf(b),
        like_ledgers(a, b),
    ensures
        same_months(a, b, year),
{
    lemma_like_itself(b);
    lemma_like_chain(a, b, b);
    if portfolio_replayable(b, year) {
        lemma_like_replayable(a, b, year);
    }
    if portfolio_replayable(a, year) {
        lemma_like_replayable(b, a, year);
    }
    assert forall|month: int|
        #![trigger portfolio_sales(a, a.len() as int, year, month)]
        #![trigger portfolio_cost(a, a.len() as int, year, month)]
        portfolio_sales(a, a.len() as int, year, month) == portfolio_sales(
            b,
            b.len() as int,
            year,
            month,
        ) && portfolio_cost(a, a.len() as int, year, month) == portfolio_cost(
            b,
            b.len() as int,
            year,
            month,
        ) by {
        lemma_like_sums(a, b, year, month);
    }
}

/// Buys, of at least one share each, leave the same monthly summaries in
/// whatever order they are recorded. The ledger of every symbol is then the
/// same but for the order of buys of the same instant, which the holding as
/// of no date depends on; so the summaries stay the same after the same
/// buys and sells recorded later.
pub proof fn law_buys_in_any_order(
    stocks: Seq<StockView>,
    a: Seq<BuyOrder>,
    b: Seq<BuyOrder>,
    year: int,
)
    requires
        wf(stocks),
        positive(a),
        a.to_multiset() == b.to_multiset(),
    ensures
        wf(after_orders(stocks, a)),
        wf(after_orders(stocks, b)),
        like_ledgers(after_orders(stocks, a), after_orders(stocks, b)),
        same_months(after_orders(stocks, a), after_orders(stocks, b), year),
{
    lemma_positive_permuted(a, b);
    lemma_orders_permuted(stocks, a, b);
    lemma_orders_wf(stocks, a);
    lemma_orders_wf(stocks, b);
    law_like_ledgers_same_months(after_orders(stocks, a), after_orders(stocks, b), year);
}

} // verus!

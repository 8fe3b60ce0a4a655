//! The order in which buys are recorded does not matter.

use crate::portfolio::{
    after_buy, after_sell, after_split, find, lemma_find, lemma_find_at, lemma_with_ledger_wf,
    portfolio_cost, portfolio_replayable, portfolio_sales, trades_of, wf, with_ledger,
};
use crate::stock::{
    adjusted, fresh, insert_sorted, lemma_insert_at, lemma_insert_index, lemma_insert_sorted,
    month_cost, month_sales, sorted, StockView,
};
use crate::timestamp::Timestamp;
use crate::trade::{Split, TradeKind, TradeView};
use vstd::prelude::*;

verus! {

/// Two trades with different dates stand in a ledger in the same places,
/// whichever is put in first.
pub proof fn lemma_insert_commutes(trades: Seq<TradeView>, a: TradeView, b: TradeView)
    requires
        sorted(trades),
        a.datetime.instant() != b.datetime.instant() || a == b,
    ensures
        insert_sorted(insert_sorted(trades, a), b) == insert_sorted(insert_sorted(trades, b), a),
    decreases
            (if a.datetime.instant() < b.datetime.instant() {
                0int
            } else {
                1int
            }),
{
    if a == b {
    } else if a.datetime.instant() < b.datetime.instant() {
        let ka = lemma_insert_index(trades, a);
        let kb = lemma_insert_index(trades, b);
        if ka > kb {
            assert(trades[kb].datetime.instant() <= a.datetime.instant());
        }
        let with_a = trades.insert(ka, a);
        let with_b = trades.insert(kb, b);
        assert forall|j: int| kb + 1 <= j < with_a.len() implies
            (#[trigger] with_a[j]).datetime.instant()
            > b.datetime.instant() by {
            assert(with_a[j] == trades[j - 1]);
        }
        if kb == ka {
            assert(with_a[kb] == a);
        } else {
            assert(with_a[kb] == trades[kb - 1]);
        }
        lemma_insert_at(with_a, b, kb + 1);
        assert forall|j: int| ka <= j < with_b.len() implies
            (#[trigger] with_b[j]).datetime.instant()
            > a.datetime.instant() by {
            if j < kb {
                assert(with_b[j] == trades[j]);
            } else if j == kb {
                assert(with_b[j] == b);
            } else {
                assert(with_b[j] == trades[j - 1]);
            }
        }
        if ka > 0 {
            assert(with_b[ka - 1] == trades[ka - 1]);
        }
        lemma_insert_at(with_b, a, ka);
        assert(with_a.insert(kb + 1, b) =~= with_b.insert(ka, a));
    } else {
        lemma_insert_commutes(trades, b, a);
    }
}

/// Whether two portfolios come to the same sums for every month of `year`,
/// so that their monthly summaries of that year are the same.
pub open spec fn same_months(a: Seq<StockView>, b: Seq<StockView>, year: int) -> bool {
    &&& portfolio_replayable(a, year) == portfolio_replayable(b, year)
    &&& forall|month: int|
        #![trigger portfolio_sales(a, a.len() as int, year, month)]
        #![trigger portfolio_cost(a, a.len() as int, year, month)]
        {
            &&& portfolio_sales(a, a.len() as int, year, month) == portfolio_sales(
                b,
                b.len() as int,
                year,
                month,
            )
            &&& portfolio_cost(a, a.len() as int, year, month) == portfolio_cost(
                b,
                b.len() as int,
                year,
                month,
            )
        }
}

/// The sums over the first ledgers of a portfolio do not depend on the
/// ledgers that follow them.
pub proof fn lemma_portfolio_prefix(
    a: Seq<StockView>,
    b: Seq<StockView>,
    k: int,
    year: int,
    month: int,
)
    requires
        0 <= k <= a.len(),
        k <= b.len(),
        forall|i: int| 0 <= i < k ==> a[i] == b[i],
    ensures
        portfolio_sales(a, k, year, month) == portfolio_sales(b, k, year, month),
        portfolio_cost(a, k, year, month) == portfolio_cost(b, k, year, month),
    decreases k,
{
    if k > 0 {
        lemma_portfolio_prefix(a, b, k - 1, year, month);
    }
}

/// Where a symbol is found does not depend on what its ledger, or any
/// other, holds.
proof fn lemma_find_by_symbols(a: Seq<StockView>, b: Seq<StockView>, symbol: Seq<char>)
    requires
        a.len() == b.len(),
        forall|i: int| 0 <= i < a.len() ==> (#[trigger] a[i]).symbol == (#[trigger] b[i]).symbol,
    ensures
        find(a, symbol) == find(b, symbol),
    decreases a.len(),
{
    if a.len() > 0 {
        assert(a.last() == a[a.len() - 1] && b.last() == b[b.len() - 1]);
        assert forall|i: int| 0 <= i < a.drop_last().len() implies
            (#[trigger] a.drop_last()[i]).symbol
            == (#[trigger] b.drop_last()[i]).symbol by {
            assert(a.drop_last()[i] == a[i] && b.drop_last()[i] == b[i]);
        }
        lemma_find_by_symbols(a.drop_last(), b.drop_last(), symbol);
    }
}

/// How a symbol is found in a portfolio to which a ledger was added.
proof fn lemma_find_pushed(stocks: Seq<StockView>, stock: StockView, symbol: Seq<char>)
    ensures
        find(stocks.push(stock), symbol) == if stock.symbol == symbol {
            Some(stocks.len() as int)
        } else {
            find(stocks, symbol)
        },
{
    assert(stocks.push(stock).drop_last() =~= stocks);
}

/// What the ledger of `symbol` holds after another ledger was replaced or
/// added.
pub proof fn lemma_other_ledger(
    stocks: Seq<StockView>,
    other: Seq<char>,
    trades: Seq<TradeView>,
    symbol: Seq<char>,
)
    requires
        other != symbol,
    ensures
        trades_of(with_ledger(stocks, other, trades), symbol) == trades_of(stocks, symbol),
        find(with_ledger(stocks, other, trades), symbol) == find(stocks, symbol),
{
    lemma_find(stocks, other);
    lemma_find(stocks, symbol);
    let after = with_ledger(stocks, other, trades);
    match find(stocks, other) {
        Some(i) => {
            lemma_find_by_symbols(after, stocks, symbol);
        },
        None => {
            lemma_find_pushed(stocks, StockView { symbol: other, trades }, symbol);
        },
    }
}

/// What the ledger of `symbol` holds after it was replaced or added.
pub proof fn lemma_same_ledger(stocks: Seq<StockView>, symbol: Seq<char>, trades: Seq<TradeView>)
    ensures
        trades_of(with_ledger(stocks, symbol, trades), symbol) == trades,
        find(with_ledger(stocks, symbol, trades), symbol) == match find(stocks, symbol) {
            Some(i) => Some(i),
            None => Some(stocks.len() as int),
        },
{
    lemma_find(stocks, symbol);
    let after = with_ledger(stocks, symbol, trades);
    match find(stocks, symbol) {
        Some(i) => {
            lemma_find_by_symbols(after, stocks, symbol);
        },
        None => {
            lemma_find_pushed(stocks, StockView { symbol, trades }, symbol);
        },
    }
}

/// A buy as it is asked of a portfolio.
pub struct BuyOrder {
    pub symbol: Seq<char>,
    pub quantity: u32,
    pub price: u64,
    pub datetime: Timestamp,
}

/// The portfolio after `order`.
pub open spec fn after_order(stocks: Seq<StockView>, order: BuyOrder) -> Seq<StockView> {
    after_buy(stocks, order.symbol, order.quantity, order.price, order.datetime)
}

/// The portfolio after the buys of `orders`, recorded first to last.
pub open spec fn after_orders(stocks: Seq<StockView>, orders: Seq<BuyOrder>) -> Seq<StockView>
    decreases orders.len(),
{
    if orders.len() == 0 {
        stocks
    } else {
        after_order(after_orders(stocks, orders.drop_last()), orders.last())
    }
}

/// Whether it is plain where two buys stand to each other in a ledger: they
/// are of different symbols, are dated differently, or are the same buy.
pub open spec fn compatible(x: BuyOrder, y: BuyOrder) -> bool {
    x.symbol != y.symbol || x.datetime.instant() != y.datetime.instant() || x == y
}

/// Whether every two of the buys are compatible.
pub open spec fn unambiguous(orders: Seq<BuyOrder>) -> bool {
    forall|i: int, j: int|
        0 <= i < j < orders.len() ==> compatible(#[trigger] orders[i], #[trigger] orders[j])
}

/// Whether every buy is of at least one share.
pub open spec fn positive(orders: Seq<BuyOrder>) -> bool {
    forall|i: int| 0 <= i < orders.len() ==> (#[trigger] orders[i]).quantity > 0
}

/// Buys of at least one share each, without one of them, are still so.
pub proof fn lemma_positive_without(orders: Seq<BuyOrder>, j: int)
    requires
        positive(orders),
        0 <= j < orders.len(),
    ensures
        positive(orders.remove(j)),
        positive(orders.drop_last()),
{
    let rest = orders.remove(j);
    assert forall|i: int| 0 <= i < rest.len() implies (#[trigger] rest[i]).quantity > 0 by {
        let i0 = if i < j { i } else { i + 1 };
        assert(rest[i] == orders[i0]);
    }
    let front = orders.drop_last();
    assert forall|i: int| 0 <= i < front.len() implies (#[trigger] front[i]).quantity > 0 by {
        assert(front[i] == orders[i]);
    }
}

/// Buys of at least one share each are so in whatever order.
pub proof fn lemma_positive_permuted(a: Seq<BuyOrder>, b: Seq<BuyOrder>)
    requires
        positive(a),
        a.to_multiset() == b.to_multiset(),
    ensures
        positive(b),
{
    broadcast use vstd::seq_lib::group_to_multiset_ensures;

    a.to_multiset_ensures();
    b.to_multiset_ensures();
    assert forall|i: int| 0 <= i < b.len() implies (#[trigger] b[i]).quantity > 0 by {
        assert(b.contains(b[i]));
        assert(a.to_multiset().count(b[i]) > 0);
        assert(a.contains(b[i]));
        let j = choose|j: int| 0 <= j < a.len() && a[j] == b[i];
        assert(a[j].quantity > 0);
    }
}

/// Whether two portfolios hold the same ledger for every symbol, in
/// whatever order the ledgers stand.
pub open spec fn same_ledgers(a: Seq<StockView>, b: Seq<StockView>) -> bool {
    forall|symbol: Seq<char>| #[trigger] same_ledger(a, b, symbol)
}

/// Whether two portfolios hold the same ledger for `symbol`, or both none.
pub open spec fn same_ledger(a: Seq<StockView>, b: Seq<StockView>, symbol: Seq<char>) -> bool {
    &&& (find(a, symbol) is Some) == (find(b, symbol) is Some)
    &&& trades_of(a, symbol) == trades_of(b, symbol)
}

/// A well-formed trade, put into the ledger of a symbol, leaves a
/// well-formed portfolio well formed.
pub proof fn lemma_trade_wf(stocks: Seq<StockView>, symbol: Seq<char>, trade: TradeView)
    requires
        wf(stocks),
        trade.wf(),
    ensures
        wf(with_ledger(stocks, symbol, insert_sorted(trades_of(stocks, symbol), trade))),
{
    let held = trades_of(stocks, symbol);
    lemma_find(stocks, symbol);
    match find(stocks, symbol) {
        Some(i) => {
            assert(stocks[i].wf());
        },
        None => {},
    }
    lemma_insert_sorted(held, trade);
    let at = lemma_insert_index(held, trade);
    let after = insert_sorted(held, trade);
    assert forall|i: int| 0 <= i < after.len() implies (#[trigger] after[i]).wf() by {
        if i < at {
            assert(after[i] == held[i]);
        } else if i > at {
            assert(after[i] == held[i - 1]);
        }
    }
    lemma_with_ledger_wf(stocks, symbol, after);
}

/// A buy of at least one share leaves a well-formed portfolio well formed.
pub proof fn lemma_order_wf(stocks: Seq<StockView>, order: BuyOrder)
    requires
        wf(stocks),
        order.quantity > 0,
    ensures
        wf(after_order(stocks, order)),
{
    lemma_trade_wf(
        stocks,
        order.symbol,
        fresh(TradeKind::Buy, order.quantity, order.price, order.datetime),
    );
}

/// Buys of at least one share each leave a well-formed portfolio well formed.
pub proof fn lemma_orders_wf(stocks: Seq<StockView>, orders: Seq<BuyOrder>)
    requires
        wf(stocks),
        positive(orders),
    ensures
        wf(after_orders(stocks, orders)),
    decreases orders.len(),
{
    if orders.len() > 0 {
        lemma_positive_without(orders, 0);
        assert(orders.last() == orders[orders.len() - 1]);
        lemma_orders_wf(stocks, orders.drop_last());
        lemma_order_wf(after_orders(stocks, orders.drop_last()), orders.last());
    }
}

/// What a buy does to the ledger of each symbol.
pub proof fn lemma_order_ledgers(stocks: Seq<StockView>, order: BuyOrder, symbol: Seq<char>)
    ensures
        find(after_order(stocks, order), symbol) is Some <==> find(stocks, symbol) is Some || symbol
            == order.symbol,
        trades_of(after_order(stocks, order), symbol) == if symbol == order.symbol {
            insert_sorted(
                trades_of(stocks, symbol),
                fresh(TradeKind::Buy, order.quantity, order.price, order.datetime),
            )
        } else {
            trades_of(stocks, symbol)
        },
{
    let trades = insert_sorted(
        trades_of(stocks, order.symbol),
        fresh(TradeKind::Buy, order.quantity, order.price, order.datetime),
    );
    if symbol == order.symbol {
        lemma_same_ledger(stocks, symbol, trades);
    } else {
        lemma_other_ledger(stocks, order.symbol, trades, symbol);
    }
}

/// The same buy, recorded in two portfolios that hold the same ledgers,
/// leaves them holding the same ledgers.
proof fn lemma_order_congruent(a: Seq<StockView>, b: Seq<StockView>, order: BuyOrder)
    requires
        same_ledgers(a, b),
    ensures
        same_ledgers(after_order(a, order), after_order(b, order)),
{
    assert forall|symbol: Seq<char>| #[trigger]
        same_ledger(after_order(a, order), after_order(b, order), symbol) by {
        lemma_order_ledgers(a, order, symbol);
        lemma_order_ledgers(b, order, symbol);
        assert(same_ledger(a, b, symbol));
        assert(same_ledger(a, b, order.symbol));
    }
}

/// Two compatible buys leave the same ledgers, whichever is recorded first.
proof fn lemma_order_swap(stocks: Seq<StockView>, x: BuyOrder, y: BuyOrder)
    requires
        wf(stocks),
        compatible(x, y),
    ensures
        same_ledgers(
            after_order(after_order(stocks, x), y),
            after_order(after_order(stocks, y), x),
        ),
{
    let a = after_order(after_order(stocks, x), y);
    let b = after_order(after_order(stocks, y), x);
    let bx = fresh(TradeKind::Buy, x.quantity, x.price, x.datetime);
    let by = fresh(TradeKind::Buy, y.quantity, y.price, y.datetime);
    assert forall|symbol: Seq<char>| #[trigger] same_ledger(a, b, symbol) by {
        lemma_order_ledgers(stocks, x, symbol);
        lemma_order_ledgers(stocks, y, symbol);
        lemma_order_ledgers(after_order(stocks, x), y, symbol);
        lemma_order_ledgers(after_order(stocks, y), x, symbol);
        if symbol == x.symbol && symbol == y.symbol {
            let held = trades_of(stocks, symbol);
            lemma_find(stocks, symbol);
            match find(stocks, symbol) {
                Some(i) => {
                    assert(stocks[i].wf());
                },
                None => {},
            }
            lemma_insert_commutes(held, bx, by);
        }
    }
}

/// The same ledgers are the same ledgers, turned round and passed on.
proof fn lemma_same_ledgers_chain(a: Seq<StockView>, b: Seq<StockView>, c: Seq<StockView>)
    requires
        same_ledgers(a, b),
        same_ledgers(b, c),
    ensures
        same_ledgers(a, c),
        same_ledgers(b, a),
{
    assert forall|symbol: Seq<char>| #[trigger] same_ledger(a, c, symbol) by {
        assert(same_ledger(a, b, symbol));
        assert(same_ledger(b, c, symbol));
    }
    assert forall|symbol: Seq<char>| #[trigger] same_ledger(b, a, symbol) by {
        assert(same_ledger(a, b, symbol));
    }
}

/// Buys without one of them are still unambiguous.
pub proof fn lemma_unambiguous_without(orders: Seq<BuyOrder>, j: int)
    requires
        unambiguous(orders),
        0 <= j < orders.len(),
    ensures
        unambiguous(orders.remove(j)),
{
    let rest = orders.remove(j);
    assert forall|a: int, b: int| 0 <= a < b < rest.len() implies compatible(
        #[trigger] rest[a],
        #[trigger] rest[b],
    ) by {
        let a0 = if a < j { a } else { a + 1 };
        let b0 = if b < j { b } else { b + 1 };
        assert(rest[a] == orders[a0] && rest[b] == orders[b0]);
        assert(compatible(orders[a0], orders[b0]));
    }
}

/// A buy among others leaves the same ledgers where it is, and where it
/// is recorded after all the others.
proof fn lemma_order_last(stocks: Seq<StockView>, orders: Seq<BuyOrder>, j: int)
    requires
        wf(stocks),
        positive(orders),
        unambiguous(orders),
        0 <= j < orders.len(),
    ensures
        same_ledgers(
            after_orders(stocks, orders),
            after_order(after_orders(stocks, orders.remove(j)), orders[j]),
        ),
    decreases orders.len(),
{
    let moved = orders[j];
    if j == orders.len() - 1 {
        assert(orders.remove(j) =~= orders.drop_last());
        assert(orders.last() == moved);
        let same = after_orders(stocks, orders);
        lemma_same_ledgers_refl(same);
    } else {
        let last = orders.last();
        let rest = orders.drop_last();
        assert(rest[j] == moved);
        assert(unambiguous(rest)) by {
            assert(rest =~= orders.remove(orders.len() - 1));
            lemma_unambiguous_without(orders, orders.len() - 1);
        }
        lemma_positive_without(orders, j);
        lemma_positive_without(rest, j);
        lemma_order_last(stocks, rest, j);
        let others = rest.remove(j);
        let base = after_orders(stocks, others);
        lemma_orders_wf(stocks, others);
        lemma_order_congruent(after_orders(stocks, rest), after_order(base, moved), last);
        assert(compatible(moved, last)) by {
            assert(compatible(orders[j], orders[orders.len() - 1]));
        }
        lemma_order_swap(base, moved, last);
        lemma_same_ledgers_chain(
            after_orders(stocks, orders),
            after_order(after_order(base, moved), last),
            after_order(after_order(base, last), moved),
        );
        assert(others.push(last) =~= orders.remove(j));
        assert(orders.remove(j).drop_last() =~= others);
        assert(orders.remove(j).last() == last);
    }
}

/// Every portfolio holds the same ledgers as itself.
proof fn lemma_same_ledgers_refl(a: Seq<StockView>)
    ensures
        same_ledgers(a, a),
{
}

/// Buys leave the same ledgers in whatever order they are recorded, where
/// every two of them are compatible.
pub proof fn lemma_orders_permuted(stocks: Seq<StockView>, a: Seq<BuyOrder>, b: Seq<BuyOrder>)
    requires
        wf(stocks),
        positive(a),
        unambiguous(a),
        a.to_multiset() == b.to_multiset(),
    ensures
        same_ledgers(after_orders(stocks, a), after_orders(stocks, b)),
    decreases b.len(),
{
    broadcast use vstd::seq_lib::group_to_multiset_ensures;

    a.to_multiset_ensures();
    b.to_multiset_ensures();
    if b.len() == 0 {
        assert(a.len() == 0);
        lemma_same_ledgers_refl(stocks);
    } else {
        let y = b.last();
        assert(b.contains(y));
        assert(a.to_multiset().count(y) > 0);
        assert(a.contains(y));
        let j = choose|j: int| 0 <= j < a.len() && a[j] == y;
        let a0 = a.remove(j);
        let b0 = b.drop_last();
        assert(b0 =~= b.remove(b.len() - 1));
        assert(a0.to_multiset() == b0.to_multiset());
        lemma_unambiguous_without(a, j);
        lemma_positive_without(a, j);
        lemma_orders_permuted(stocks, a0, b0);
        lemma_order_last(stocks, a, j);
        lemma_order_congruent(after_orders(stocks, a0), after_orders(stocks, b0), y);
        lemma_same_ledgers_chain(
            after_orders(stocks, a),
            after_order(after_orders(stocks, a0), y),
            after_orders(stocks, b),
        );
    }
}

/// A portfolio without one of its ledgers is well formed, holds no ledger
/// for the symbol of that one, and holds every other ledger as before.
pub proof fn lemma_without(stocks: Seq<StockView>, j: int, symbol: Seq<char>)
    requires
        wf(stocks),
        0 <= j < stocks.len(),
    ensures
        wf(stocks.remove(j)),
        find(stocks.remove(j), stocks[j].symbol) is None,
        symbol != stocks[j].symbol ==> same_ledger(stocks.remove(j), stocks, symbol),
{
    let rest = stocks.remove(j);
    assert forall|a: int, b: int| 0 <= a < b < rest.len() implies (#[trigger] rest[a]).symbol != (
    #[trigger] rest[b]).symbol by {
        let a0 = if a < j { a } else { a + 1 };
        let b0 = if b < j { b } else { b + 1 };
        assert(rest[a] == stocks[a0] && rest[b] == stocks[b0]);
    }
    assert forall|a: int| 0 <= a < rest.len() implies (#[trigger] rest[a]).wf() by {
        let a0 = if a < j { a } else { a + 1 };
        assert(rest[a] == stocks[a0]);
    }
    lemma_find(rest, stocks[j].symbol);
    if find(rest, stocks[j].symbol) is Some {
        let a = find(rest, stocks[j].symbol)->0;
        let a0 = if a < j { a } else { a + 1 };
        assert(rest[a] == stocks[a0]);
        if a0 < j {
            assert(stocks[a0].symbol != stocks[j].symbol);
        } else {
            assert(stocks[j].symbol != stocks[a0].symbol);
        }
    }
    if symbol != stocks[j].symbol {
        lemma_find(stocks, symbol);
        lemma_find(rest, symbol);
        match find(stocks, symbol) {
            Some(i) => {
                let i0 = if i < j { i } else { i - 1 };
                assert(rest[i0] == stocks[i]);
                lemma_find_at(rest, i0);
            },
            None => {
                if find(rest, symbol) is Some {
                    let a = find(rest, symbol)->0;
                    let a0 = if a < j { a } else { a + 1 };
                    assert(rest[a] == stocks[a0]);
                }
            },
        }
    }
}

/// The sums over a portfolio are the sums over it without one of its
/// ledgers, and the sums over that ledger.
pub proof fn lemma_sums_without(stocks: Seq<StockView>, j: int, year: int, month: int)
    requires
        0 <= j < stocks.len(),
    ensures
        portfolio_sales(stocks, stocks.len() as int, year, month) == portfolio_sales(
            stocks.remove(j),
            stocks.len() - 1,
            year,
            month,
        ) + month_sales(stocks[j].trades, stocks[j].trades.len() as int, year, month),
        portfolio_cost(stocks, stocks.len() as int, year, month) == portfolio_cost(
            stocks.remove(j),
            stocks.len() - 1,
            year,
            month,
        ) + month_cost(stocks[j].trades, stocks[j].trades.len() as int, year, month),
    decreases stocks.len(),
{
    let n = stocks.len() as int;
    let rest = stocks.remove(j);
    if j == n - 1 {
        lemma_portfolio_prefix(stocks, rest, n - 1, year, month);
    } else {
        let front = stocks.drop_last();
        lemma_sums_without(front, j, year, month);
        lemma_portfolio_prefix(stocks, front, n - 1, year, month);
        assert(front.remove(j) =~= rest.drop_last());
        lemma_portfolio_prefix(rest, front.remove(j), n - 2, year, month);
        assert(rest[n - 2] == stocks[n - 1]);
        assert(front[j] == stocks[j]);
    }
}

/// Buys, of at least one share each, leave the same ledger for every symbol
/// in whatever order they are recorded: where every two of them are of
/// different symbols, are dated differently, or are the same buy.
pub proof fn law_distinct_buys_in_any_order(
    stocks: Seq<StockView>,
    a: Seq<BuyOrder>,
    b: Seq<BuyOrder>,
)
    requires
        wf(stocks),
        positive(a),
        unambiguous(a),
        a.to_multiset() == b.to_multiset(),
    ensures
        same_ledgers(after_orders(stocks, a), after_orders(stocks, b)),
{
    lemma_orders_permuted(stocks, a, b);
}

/// Two portfolios that hold the same ledgers hold the same ledgers after
/// the same buy, sell or split. What a sell returns depends on the ledger of
/// its symbol alone, so it is the same in both.
pub proof fn law_same_ledgers_stay(
    a: Seq<StockView>,
    b: Seq<StockView>,
    symbol: Seq<char>,
    quantity: u32,
    price: u64,
    datetime: Timestamp,
    split: Split,
)
    requires
        same_ledgers(a, b),
    ensures
        same_ledgers(
            after_buy(a, symbol, quantity, price, datetime),
            after_buy(b, symbol, quantity, price, datetime),
        ),
        same_ledgers(
            after_sell(a, symbol, quantity, price, datetime),
            after_sell(b, symbol, quantity, price, datetime),
        ),
        same_ledgers(after_split(a, symbol, split), after_split(b, symbol, split)),
{
    assert(same_ledger(a, b, symbol));
    lemma_ledger_congruent(
        a,
        b,
        symbol,
        insert_sorted(trades_of(a, symbol), fresh(TradeKind::Buy, quantity, price, datetime)),
    );
    lemma_ledger_congruent(
        a,
        b,
        symbol,
        insert_sorted(trades_of(a, symbol), fresh(TradeKind::Sell, quantity, price, datetime)),
    );
    lemma_ledger_congruent(a, b, symbol, adjusted(trades_of(a, symbol), split));
}

/// The same ledger, put into two portfolios that hold the same ledgers,
/// leaves them holding the same ledgers.
proof fn lemma_ledger_congruent(
    a: Seq<StockView>,
    b: Seq<StockView>,
    symbol: Seq<char>,
    trades: Seq<TradeView>,
)
    requires
        same_ledgers(a, b),
    ensures
        same_ledgers(with_ledger(a, symbol, trades), with_ledger(b, symbol, trades)),
{
    assert forall|other: Seq<char>| #[trigger]
        same_ledger(with_ledger(a, symbol, trades), with_ledger(b, symbol, trades), other) by {
        assert(same_ledger(a, b, other));
        if other == symbol {
            lemma_same_ledger(a, symbol, trades);
            lemma_same_ledger(b, symbol, trades);
        } else {
            lemma_other_ledger(a, symbol, trades, other);
            lemma_other_ledger(b, symbol, trades, other);
        }
    }
}

} // verus!

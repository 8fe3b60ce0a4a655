//! Ledgers that differ only in the order of buys that bear the same instant,
//! and that every replay therefore takes alike.

use crate::position::{lemma_value_bounded, position, Position};
use crate::stock::{
    insert_sorted, lemma_insert_at, lemma_insert_index, month_cost, month_sales, sales_replayable,
    sorted,
};
use crate::trade::{TradeKind, TradeView};
use vstd::prelude::*;

verus! {

/// The replay of `trades` as of `date` that starts from the holding `start`.
pub open spec fn replay(start: Option<Position>, trades: Seq<TradeView>, date: int) -> Option<
    Position,
>
    decreases trades.len(),
{
    if trades.len() == 0 {
        start
    } else {
        match replay(start, trades.drop_last(), date) {
            None => None,
            Some(before) => if trades.last().datetime.instant() < date {
                before.after(trades.last(), date)
            } else {
                Some(before)
            },
        }
    }
}

/// The holding as of a date is the replay that starts from nothing.
pub proof fn lemma_position_is_replay(trades: Seq<TradeView>, date: int)
    ensures
        position(trades, date) == replay(Some(Position::empty()), trades, date),
    decreases trades.len(),
{
    if trades.len() > 0 {
        lemma_position_is_replay(trades.drop_last(), date);
    }
}

/// The replay of two runs of trades, one after the other, is the replay of
/// the second that starts where the replay of the first ends.
pub proof fn lemma_replay_joined(
    start: Option<Position>,
    first: Seq<TradeView>,
    second: Seq<TradeView>,
    date: int,
)
    ensures
        replay(start, first + second, date) == replay(replay(start, first, date), second, date),
    decreases second.len(),
{
    if second.len() == 0 {
        assert(first + second =~= first);
    } else {
        assert((first + second).drop_last() =~= first + second.drop_last());
        assert((first + second).last() == second.last());
        lemma_replay_joined(start, first, second.drop_last(), date);
    }
}

/// Whether every replay takes the two runs of trades alike: from whatever
/// holding it starts, and as of whatever date.
#[verifier::opaque]
pub open spec fn replayed_alike(a: Seq<TradeView>, b: Seq<TradeView>) -> bool {
    forall|start: Option<Position>, date: int|
        #[trigger] replay(start, a, date) == replay(start, b, date)
}

/// Runs that are replayed alike end in the same holding.
pub proof fn lemma_replayed_alike(
    a: Seq<TradeView>,
    b: Seq<TradeView>,
    start: Option<Position>,
    date: int,
)
    requires
        replayed_alike(a, b),
    ensures
        replay(start, a, date) == replay(start, b, date),
{
    reveal(replayed_alike);
}

/// Every run is replayed like itself.
proof fn lemma_replayed_alike_itself(a: Seq<TradeView>)
    ensures
        replayed_alike(a, a),
{
    reveal(replayed_alike);
}

/// Being replayed alike goes both ways, and passes on.
proof fn lemma_replayed_alike_chain(a: Seq<TradeView>, b: Seq<TradeView>, c: Seq<TradeView>)
    requires
        replayed_alike(a, b),
        replayed_alike(b, c),
    ensures
        replayed_alike(a, c),
        replayed_alike(b, a),
{
    reveal(replayed_alike);
    assert forall|start: Option<Position>, date: int| #[trigger]
        replay(start, a, date) == replay(start, c, date) by {
        assert(replay(start, a, date) == replay(start, b, date));
        assert(replay(start, b, date) == replay(start, c, date));
    }
    assert forall|start: Option<Position>, date: int| #[trigger]
        replay(start, b, date) == replay(start, a, date) by {
        assert(replay(start, a, date) == replay(start, b, date));
    }
}

/// Runs that are replayed alike, each followed by one of two more runs that
/// are replayed alike, are replayed alike.
proof fn lemma_replayed_alike_joined(
    a: Seq<TradeView>,
    b: Seq<TradeView>,
    c: Seq<TradeView>,
    d: Seq<TradeView>,
)
    requires
        replayed_alike(a, b),
        replayed_alike(c, d),
    ensures
        replayed_alike(a + c, b + d),
{
    reveal(replayed_alike);
    assert forall|start: Option<Position>, date: int| #[trigger]
        replay(start, a + c, date) == replay(start, b + d, date) by {
        lemma_replay_joined(start, a, c, date);
        lemma_replay_joined(start, b, d, date);
        assert(replay(start, a, date) == replay(start, b, date));
        let middle = replay(start, a, date);
        assert(replay(middle, c, date) == replay(middle, d, date));
    }
}

/// Whether a run of trades may start or end at `at`: at either end of the
/// ledger, or between two trades of different instants.
pub open spec fn boundary(trades: Seq<TradeView>, at: int) -> bool {
    at == 0 || at == trades.len() || (0 < at < trades.len() && trades[at - 1].datetime.instant()
        < trades[at].datetime.instant())
}

/// Whether two ledgers bear the same instants, trade by trade.
pub open spec fn same_instants(a: Seq<TradeView>, b: Seq<TradeView>) -> bool {
    &&& a.len() == b.len()
    &&& forall|i: int|
        0 <= i < a.len() ==> (#[trigger] a[i]).datetime.instant() == b[i].datetime.instant()
}

/// Whether two ledgers hold the same trades, but for buys in the place of
/// other buys.
pub open spec fn same_sells(a: Seq<TradeView>, b: Seq<TradeView>) -> bool {
    &&& a.len() == b.len()
    &&& forall|i: int|
        0 <= i < a.len() ==> (#[trigger] a[i]) == b[i] || (a[i].kind == TradeKind::Buy && b[i].kind
            == TradeKind::Buy)
}

/// Whether every replay takes alike what two ledgers hold between two
/// boundaries of the first.
pub open spec fn segments_alike(a: Seq<TradeView>, b: Seq<TradeView>) -> bool {
    &&& a.len() == b.len()
    &&& forall|i: int, j: int|
        0 <= i <= j <= a.len() && boundary(a, i) && boundary(a, j) ==> replayed_alike(
            #[trigger] a.subrange(i, j),
            b.subrange(i, j),
        )
}

/// Whether two ledgers differ at most in the order of buys of the same
/// instant: trade by trade they bear the same instants, their sells are the
/// same, and every replay takes alike what they hold between two boundaries.
pub open spec fn alike(a: Seq<TradeView>, b: Seq<TradeView>) -> bool {
    &&& same_instants(a, b)
    &&& same_sells(a, b)
    &&& segments_alike(a, b)
}

/// Every ledger is like itself.
pub proof fn lemma_alike_itself(a: Seq<TradeView>)
    ensures
        alike(a, a),
{
    assert forall|i: int, j: int|
        0 <= i <= j <= a.len() && boundary(a, i) && boundary(a, j) implies replayed_alike(
        #[trigger] a.subrange(i, j),
        a.subrange(i, j),
    ) by {
        lemma_replayed_alike_itself(a.subrange(i, j));
    }
}

/// Ledgers that are alike bear their boundaries at the same places.
proof fn lemma_same_boundaries(a: Seq<TradeView>, b: Seq<TradeView>, at: int)
    requires
        alike(a, b),
        0 <= at <= a.len(),
    ensures
        boundary(a, at) == boundary(b, at),
{
    if 0 < at < a.len() {
        assert(a[at - 1].datetime.instant() == b[at - 1].datetime.instant());
        assert(a[at].datetime.instant() == b[at].datetime.instant());
    }
}

/// Being alike goes both ways, and passes on.
pub proof fn lemma_alike_chain(a: Seq<TradeView>, b: Seq<TradeView>, c: Seq<TradeView>)
    requires
        alike(a, b),
        alike(b, c),
    ensures
        alike(a, c),
        alike(b, a),
{
    assert forall|i: int| 0 <= i < a.len() implies (#[trigger] a[i]).datetime.instant()
        == c[i].datetime.instant() by {
        assert(b[i].datetime.instant() == c[i].datetime.instant());
    }
    assert forall|i: int| 0 <= i < a.len() implies (#[trigger] a[i]) == c[i] || (a[i].kind
        == TradeKind::Buy && c[i].kind == TradeKind::Buy) by {
        assert(b[i] == c[i] || (b[i].kind == TradeKind::Buy && c[i].kind == TradeKind::Buy));
    }
    assert forall|i: int, j: int|
        0 <= i <= j <= a.len() && boundary(a, i) && boundary(a, j) implies replayed_alike(
        #[trigger] a.subrange(i, j),
        c.subrange(i, j),
    ) by {
        lemma_same_boundaries(a, b, i);
        lemma_same_boundaries(a, b, j);
        assert(replayed_alike(a.subrange(i, j), b.subrange(i, j)));
        assert(replayed_alike(b.subrange(i, j), c.subrange(i, j)));
        lemma_replayed_alike_chain(a.subrange(i, j), b.subrange(i, j), c.subrange(i, j));
    }
    assert forall|i: int| 0 <= i < b.len() implies (#[trigger] b[i]).datetime.instant()
        == a[i].datetime.instant() by {
        assert(a[i].datetime.instant() == b[i].datetime.instant());
    }
    assert forall|i: int| 0 <= i < b.len() implies (#[trigger] b[i]) == a[i] || (b[i].kind
        == TradeKind::Buy && a[i].kind == TradeKind::Buy) by {
        assert(a[i] == b[i] || (a[i].kind == TradeKind::Buy && b[i].kind == TradeKind::Buy));
    }
    assert forall|i: int, j: int|
        0 <= i <= j <= b.len() && boundary(b, i) && boundary(b, j) implies replayed_alike(
        #[trigger] b.subrange(i, j),
        a.subrange(i, j),
    ) by {
        lemma_same_boundaries(a, b, i);
        lemma_same_boundaries(a, b, j);
        assert(replayed_alike(a.subrange(i, j), b.subrange(i, j)));
        lemma_replayed_alike_itself(b.subrange(i, j));
        lemma_replayed_alike_chain(a.subrange(i, j), b.subrange(i, j), b.subrange(i, j));
    }
}

/// Ledgers that are alike are replayed to the same holding as of every
/// date.
pub proof fn lemma_alike_position(a: Seq<TradeView>, b: Seq<TradeView>, date: int)
    requires
        alike(a, b),
    ensures
        position(a, date) == position(b, date),
{
    lemma_position_is_replay(a, date);
    lemma_position_is_replay(b, date);
    assert(a.subrange(0, a.len() as int) =~= a);
    assert(b.subrange(0, a.len() as int) =~= b);
    assert(boundary(a, 0) && boundary(a, a.len() as int));
    assert(replayed_alike(a.subrange(0, a.len() as int), b.subrange(0, a.len() as int)));
    lemma_replayed_alike(a, b, Some(Position::empty()), date);
}

/// Ledgers that are alike come to the same sums for every month, and can be
/// replayed up to the same sells.
pub proof fn lemma_alike_months(a: Seq<TradeView>, b: Seq<TradeView>, n: int, year: int, month: int)
    requires
        alike(a, b),
        0 <= n <= a.len(),
    ensures
        month_sales(a, n, year, month) == month_sales(b, n, year, month),
        month_cost(a, n, year, month) == month_cost(b, n, year, month),
        sales_replayable(a, n, year) == sales_replayable(b, n, year),
    decreases n,
{
    if n > 0 {
        lemma_alike_months(a, b, n - 1, year, month);
        assert(a[n - 1] == b[n - 1] || (a[n - 1].kind == TradeKind::Buy && b[n - 1].kind
            == TradeKind::Buy));
        lemma_alike_position(a, b, a[n - 1].datetime.instant());
    }
    if sales_replayable(a, n, year) {
        assert forall|i: int|
            0 <= i < n && i < b.len() && (#[trigger] b[i]).kind == TradeKind::Sell
                && b[i].datetime.spec_year() == year implies position(
            b,
            b[i].datetime.instant(),
        ) is Some by {
            assert(a[i] == b[i] || (a[i].kind == TradeKind::Buy && b[i].kind == TradeKind::Buy));
            lemma_alike_position(a, b, a[i].datetime.instant());
        }
    }
    if sales_replayable(b, n, year) {
        assert forall|i: int|
            0 <= i < n && i < a.len() && (#[trigger] a[i]).kind == TradeKind::Sell
                && a[i].datetime.spec_year() == year implies position(
            a,
            a[i].datetime.instant(),
        ) is Some by {
            assert(a[i] == b[i] || (a[i].kind == TradeKind::Buy && b[i].kind == TradeKind::Buy));
            lemma_alike_position(a, b, a[i].datetime.instant());
        }
    }
}

/// One step of a replay.
pub open spec fn step(start: Option<Position>, trade: TradeView, date: int) -> Option<Position> {
    match start {
        None => None,
        Some(before) => if trade.datetime.instant() < date {
            before.after(trade, date)
        } else {
            Some(before)
        },
    }
}

/// The replay of one trade is one step.
proof fn lemma_replay_one(start: Option<Position>, trade: TradeView, date: int)
    ensures
        replay(start, seq![trade], date) == step(start, trade, date),
{
    assert(seq![trade].drop_last() =~= Seq::<TradeView>::empty());
    assert(seq![trade].last() == trade);
    assert(replay(start, Seq::<TradeView>::empty(), date) == start);
}

/// Two buys of the same instant are replayed alike, whichever comes first.
proof fn lemma_buys_commute(x: TradeView, y: TradeView)
    requires
        x.kind == TradeKind::Buy,
        y.kind == TradeKind::Buy,
        x.datetime.instant() == y.datetime.instant(),
    ensures
        replayed_alike(seq![x, y], seq![y, x]),
{
    reveal(replayed_alike);
    let xy = seq![x, y];
    let yx = seq![y, x];
    assert forall|start: Option<Position>, date: int| #[trigger]
        replay(start, xy, date) == replay(start, yx, date) by {
        assert(seq![x] + seq![y] =~= xy);
        assert(seq![y] + seq![x] =~= yx);
        lemma_replay_joined(start, seq![x], seq![y], date);
        lemma_replay_joined(start, seq![y], seq![x], date);
        lemma_replay_one(start, x, date);
        lemma_replay_one(start, y, date);
        lemma_replay_one(step(start, x, date), y, date);
        lemma_replay_one(step(start, y, date), x, date);
        if x.representable(date) {
            lemma_value_bounded(x, date);
        }
        if y.representable(date) {
            lemma_value_bounded(y, date);
        }
    }
}

/// Where sorted insertion puts a trade is the same in two ledgers that are
/// alike, and it is a boundary of both.
proof fn lemma_insert_alike_index(a: Seq<TradeView>, b: Seq<TradeView>, trade: TradeView) -> (at:
    int)
    requires
        alike(a, b),
        sorted(a),
        sorted(b),
    ensures
        0 <= at <= a.len(),
        insert_sorted(a, trade) == a.insert(at, trade),
        insert_sorted(b, trade) == b.insert(at, trade),
        boundary(a, at),
        forall|j: int| 0 <= j < at ==> (#[trigger] a[j]).datetime.instant()
            <= trade.datetime.instant(),
        forall|j: int| at <= j < a.len() ==> (#[trigger] a[j]).datetime.instant()
            > trade.datetime.instant(),
{
    let at = lemma_insert_index(a, trade);
    let other = lemma_insert_index(b, trade);
    if at < other {
        assert(a[at].datetime.instant() == b[at].datetime.instant());
    }
    if other < at {
        assert(a[other].datetime.instant() == b[other].datetime.instant());
    }
    if 0 < at < a.len() {
        assert(a[at - 1].datetime.instant() <= trade.datetime.instant());
    }
    at
}

/// A boundary of a ledger with a trade put in, as a boundary of the ledger
/// without it.
proof fn lemma_boundary_without(trades: Seq<TradeView>, trade: TradeView, at: int, i: int)
    requires
        0 <= at <= trades.len(),
        boundary(trades, at),
        forall|j: int| 0 <= j < at ==> (#[trigger] trades[j]).datetime.instant()
            <= trade.datetime.instant(),
        forall|j: int| at <= j < trades.len() ==> (#[trigger] trades[j]).datetime.instant()
            > trade.datetime.instant(),
        0 <= i <= trades.len() + 1,
        boundary(trades.insert(at, trade), i),
    ensures
        i <= at ==> boundary(trades, i),
        i > at ==> boundary(trades, i - 1),
{
    let with = trades.insert(at, trade);
    if 0 < i < at {
        assert(with[i - 1] == trades[i - 1] && with[i] == trades[i]);
    } else if i > at + 1 && i < with.len() {
        assert(with[i - 1] == trades[i - 2] && with[i] == trades[i - 1]);
    }
}

/// Putting a trade at a boundary of two ledgers keeps every replay taking
/// alike what they hold between two boundaries.
proof fn lemma_insert_segments(a: Seq<TradeView>, b: Seq<TradeView>, trade: TradeView, at: int)
    requires
        segments_alike(a, b),
        0 <= at <= a.len(),
        boundary(a, at),
        forall|j: int| 0 <= j < at ==> (#[trigger] a[j]).datetime.instant()
            <= trade.datetime.instant(),
        forall|j: int| at <= j < a.len() ==> (#[trigger] a[j]).datetime.instant()
            > trade.datetime.instant(),
    ensures
        segments_alike(a.insert(at, trade), b.insert(at, trade)),
{
    let x = a.insert(at, trade);
    let y = b.insert(at, trade);
    assert forall|i: int, j: int|
        0 <= i <= j <= x.len() && boundary(x, i) && boundary(x, j) implies replayed_alike(
        #[trigger] x.subrange(i, j),
        y.subrange(i, j),
    ) by {
        lemma_boundary_without(a, trade, at, i);
        lemma_boundary_without(a, trade, at, j);
        if j <= at {
            assert(x.subrange(i, j) =~= a.subrange(i, j));
            assert(y.subrange(i, j) =~= b.subrange(i, j));
            assert(replayed_alike(a.subrange(i, j), b.subrange(i, j)));
        } else if i > at {
            assert(x.subrange(i, j) =~= a.subrange(i - 1, j - 1));
            assert(y.subrange(i, j) =~= b.subrange(i - 1, j - 1));
            assert(replayed_alike(a.subrange(i - 1, j - 1), b.subrange(i - 1, j - 1)));
        } else {
            let one = seq![trade];
            let a_front = a.subrange(i, at);
            let b_front = b.subrange(i, at);
            let a_back = a.subrange(at, j - 1);
            let b_back = b.subrange(at, j - 1);
            assert(x.subrange(i, j) =~= a_front + one + a_back);
            assert(y.subrange(i, j) =~= b_front + one + b_back);
            assert(replayed_alike(a_front, b_front));
            assert(replayed_alike(a_back, b_back));
            lemma_replayed_alike_itself(one);
            lemma_replayed_alike_joined(a_front, b_front, one, one);
            lemma_replayed_alike_joined(a_front + one, b_front + one, a_back, b_back);
        }
    }
}

/// The same trade, put into two ledgers that are alike, leaves them alike.
pub proof fn lemma_insert_alike(a: Seq<TradeView>, b: Seq<TradeView>, trade: TradeView)
    requires
        alike(a, b),
        sorted(a),
        sorted(b),
    ensures
        alike(insert_sorted(a, trade), insert_sorted(b, trade)),
{
    let at = lemma_insert_alike_index(a, b, trade);
    lemma_insert_segments(a, b, trade, at);
    lemma_insert_same(a, b, trade, at);
}

/// Putting a trade at the same place of two ledgers keeps their instants
/// and their sells the same.
proof fn lemma_insert_same(a: Seq<TradeView>, b: Seq<TradeView>, trade: TradeView, at: int)
    requires
        same_instants(a, b),
        same_sells(a, b),
        0 <= at <= a.len(),
    ensures
        same_instants(a.insert(at, trade), b.insert(at, trade)),
        same_sells(a.insert(at, trade), b.insert(at, trade)),
{
    let x = a.insert(at, trade);
    let y = b.insert(at, trade);
    assert forall|i: int| 0 <= i < x.len() implies (#[trigger] x[i]).datetime.instant()
        == y[i].datetime.instant() by {
        if i < at {
            assert(a[i].datetime.instant() == b[i].datetime.instant());
        } else if i > at {
            assert(a[i - 1].datetime.instant() == b[i - 1].datetime.instant());
        }
    }
    assert forall|i: int| 0 <= i < x.len() implies (#[trigger] x[i]) == y[i] || (x[i].kind
        == TradeKind::Buy && y[i].kind == TradeKind::Buy) by {
        if i < at {
            assert(a[i] == b[i] || (a[i].kind == TradeKind::Buy && b[i].kind == TradeKind::Buy));
        } else if i > at {
            assert(a[i - 1] == b[i - 1] || (a[i - 1].kind == TradeKind::Buy && b[i - 1].kind
                == TradeKind::Buy));
        }
    }
}

/// Two buys of the same instant, put at the same place of a ledger one after
/// the other, are replayed alike between two boundaries, whichever comes
/// first.
proof fn lemma_tied_segments(trades: Seq<TradeView>, x: TradeView, y: TradeView, at: int)
    requires
        0 <= at <= trades.len(),
        x.kind == TradeKind::Buy,
        y.kind == TradeKind::Buy,
        x.datetime.instant() == y.datetime.instant(),
    ensures
        segments_alike(
            trades.insert(at, x).insert(at + 1, y),
            trades.insert(at, y).insert(at + 1, x),
        ),
        same_instants(
            trades.insert(at, x).insert(at + 1, y),
            trades.insert(at, y).insert(at + 1, x),
        ),
        same_sells(
            trades.insert(at, x).insert(at + 1, y),
            trades.insert(at, y).insert(at + 1, x),
        ),
{
    let a = trades.insert(at, x).insert(at + 1, y);
    let b = trades.insert(at, y).insert(at + 1, x);
    assert(a[at] == x && a[at + 1] == y);
    assert(b[at] == y && b[at + 1] == x);
    assert forall|i: int| 0 <= i < a.len() implies (#[trigger] a[i]).datetime.instant()
        == b[i].datetime.instant() by {}
    assert forall|i: int| 0 <= i < a.len() implies (#[trigger] a[i]) == b[i] || (a[i].kind
        == TradeKind::Buy && b[i].kind == TradeKind::Buy) by {}
    assert forall|i: int, j: int|
        0 <= i <= j <= a.len() && boundary(a, i) && boundary(a, j) implies replayed_alike(
        #[trigger] a.subrange(i, j),
        b.subrange(i, j),
    ) by {
        assert(!boundary(a, at + 1));
        if j <= at || i >= at + 2 {
            assert(a.subrange(i, j) =~= b.subrange(i, j));
            lemma_replayed_alike_itself(a.subrange(i, j));
        } else {
            let front = a.subrange(i, at);
            let back = a.subrange(at + 2, j);
            let xy = seq![x, y];
            let yx = seq![y, x];
            assert(a.subrange(i, j) =~= front + xy + back);
            assert(b.subrange(i, j) =~= front + yx + back);
            lemma_buys_commute(x, y);
            lemma_replayed_alike_itself(front);
            lemma_replayed_alike_itself(back);
            lemma_replayed_alike_joined(front, front, xy, yx);
            lemma_replayed_alike_joined(front + xy, front + yx, back, back);
        }
    }
}

/// Two buys of the same instant leave ledgers that are alike, whichever is
/// put in first.
pub proof fn lemma_tied_buys_alike(trades: Seq<TradeView>, x: TradeView, y: TradeView)
    requires
        sorted(trades),
        x.kind == TradeKind::Buy,
        y.kind == TradeKind::Buy,
        x.datetime.instant() == y.datetime.instant(),
    ensures
        alike(
            insert_sorted(insert_sorted(trades, x), y),
            insert_sorted(insert_sorted(trades, y), x),
        ),
{
    let at = lemma_insert_index(trades, x);
    let other = lemma_insert_index(trades, y);
    if at < other {
        assert(trades[at].datetime.instant() > x.datetime.instant());
    }
    if other < at {
        assert(trades[other].datetime.instant() > y.datetime.instant());
    }
    let with_x = trades.insert(at, x);
    let with_y = trades.insert(at, y);
    assert forall|j: int| at + 1 <= j < with_x.len() implies (
    #[trigger] with_x[j]).datetime.instant() > y.datetime.instant() by {
        assert(with_x[j] == trades[j - 1]);
    }
    assert(with_x[at] == x);
    lemma_insert_at(with_x, y, at + 1);
    assert forall|j: int| at + 1 <= j < with_y.len() implies (
    #[trigger] with_y[j]).datetime.instant() > x.datetime.instant() by {
        assert(with_y[j] == trades[j - 1]);
    }
    assert(with_y[at] == y);
    lemma_insert_at(with_y, x, at + 1);
    lemma_tied_segments(trades, x, y, at);
}

} // verus!

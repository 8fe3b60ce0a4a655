//! The ledger of one security: its trades in time order, the queries that
//! replay them, and the operations that record a buy, a sell or a split.

use crate::error::LedgerError;
use crate::position::{
    average_cost_as_of, lemma_failure_persists, lemma_position_bounded, net_quantity, position,
    quantity_as_of, readable, Holding,
};
use crate::summary::{MonthSummary, AMOUNT_LIMIT};
use crate::timestamp::Timestamp;
use crate::trade::{Ratio, Split, Trade, TradeKind, TradeView, SHARE_LIMIT};
use vstd::prelude::*;

verus! {

/// The trades of a ledger as mathematical values.
pub open spec fn views(trades: Seq<Trade>) -> Seq<TradeView> {
    trades.map_values(|t: Trade| t@)
}

/// No trade is dated before one that precedes it.
pub open spec fn sorted(trades: Seq<TradeView>) -> bool {
    forall|i: int, j: int|
        0 <= i <= j < trades.len() ==> trades[i].datetime.instant() <= trades[j].datetime.instant()
}

/// The ledger with `trade` put after every trade that is not dated later than
/// it: what appending it and sorting by date, stably, gives.
pub open spec fn insert_sorted(trades: Seq<TradeView>, trade: TradeView) -> Seq<TradeView>
    decreases trades.len(),
{
    if trades.len() == 0 || trades.last().datetime.instant() <= trade.datetime.instant() {
        trades.push(trade)
    } else {
        insert_sorted(trades.drop_last(), trade).push(trades.last())
    }
}

/// The trade with `split` attached, where the trade is dated before it.
pub open spec fn adjust(trade: TradeView, split: Split) -> TradeView {
    if trade.datetime.instant() < split.datetime.instant() {
        TradeView {
            quantity: trade.quantity,
            price: trade.price,
            datetime: trade.datetime,
            kind: trade.kind,
            splits: trade.splits.push(split),
        }
    } else {
        trade
    }
}

/// The ledger with `split` attached to every trade dated before it.
pub open spec fn adjusted(trades: Seq<TradeView>, split: Split) -> Seq<TradeView> {
    trades.map_values(|t: TradeView| adjust(t, split))
}

/// A new trade, with no adjustment attached.
pub open spec fn fresh(kind: TradeKind, quantity: u32, price: u64, datetime: Timestamp)
    -> TradeView {
    TradeView { quantity, price, datetime, kind, splits: Seq::empty() }
}

/// Whether the trade is a sell dated in month `month`, 1 to 12, of `year`.
pub open spec fn sold_in(trade: TradeView, year: int, month: int) -> bool {
    &&& trade.kind == TradeKind::Sell
    &&& trade.datetime.spec_year() == year
    &&& trade.datetime.spec_month() == month
}

/// What a sell brought in: its price times its quantity. A trade carries
/// only adjustments dated after it, so as of its own date these are its
/// effective price and quantity.
pub open spec fn sale_proceeds(trade: TradeView) -> int {
    trade.price * trade.quantity
}

/// What the shares of a sell had cost: the average cost as of the date of the
/// sell, times its quantity.
pub open spec fn sale_cost(trades: Seq<TradeView>, trade: TradeView) -> int {
    match position(trades, trade.datetime.instant()) {
        Some(p) => p.average() * trade.quantity,
        None => 0,
    }
}

/// What the sells among the first `n` trades of the ledger, dated in the
/// given month of the given year, brought in.
pub open spec fn month_sales(trades: Seq<TradeView>, n: int, year: int, month: int) -> int
    decreases n,
{
    if n <= 0 {
        0
    } else if sold_in(trades[n - 1], year, month) {
        month_sales(trades, n - 1, year, month) + sale_proceeds(trades[n - 1])
    } else {
        month_sales(trades, n - 1, year, month)
    }
}

/// What the shares of those sells had cost.
pub open spec fn month_cost(trades: Seq<TradeView>, n: int, year: int, month: int) -> int
    decreases n,
{
    if n <= 0 {
        0
    } else if sold_in(trades[n - 1], year, month) {
        month_cost(trades, n - 1, year, month) + sale_cost(trades, trades[n - 1])
    } else {
        month_cost(trades, n - 1, year, month)
    }
}

/// Whether the ledger can be replayed up to each sell of `year` among its
/// first `n` trades.
pub open spec fn sales_replayable(trades: Seq<TradeView>, n: int, year: int) -> bool {
    forall|i: int|
        0 <= i < n && i < trades.len() && (#[trigger] trades[i]).kind == TradeKind::Sell
            && trades[i].datetime.spec_year() == year ==> position(
            trades,
            trades[i].datetime.instant(),
        ) is Some
}

/// Whether each month of `before`, with the sells of `year` among the first
/// `n` trades added, stays within the limit.
pub open spec fn months_fit(before: Seq<MonthSummary>, trades: Seq<TradeView>, n: int, year: int)
    -> bool {
    forall|m: int|
        #![trigger before[m]]
        0 <= m < 12 ==> {
            &&& before[m].sold_amount + month_sales(trades, n, year, m + 1) <= AMOUNT_LIMIT
            &&& before[m].cost() + month_cost(trades, n, year, m + 1) <= AMOUNT_LIMIT
        }
}

/// The months of `before` with the sells of `year` in the ledger added.
pub open spec fn months_added(
    before: Seq<MonthSummary>,
    after: Seq<MonthSummary>,
    trades: Seq<TradeView>,
    n: int,
    year: int,
) -> bool {
    &&& after.len() == before.len()
    &&& forall|m: int|
        #![trigger after[m]]
        0 <= m < 12 && m < before.len() ==> {
            &&& after[m].wf()
            &&& after[m].sold_amount == before[m].sold_amount + month_sales(trades, n, year, m + 1)
            &&& after[m].profit == before[m].profit + month_sales(trades, n, year, m + 1)
                - month_cost(trades, n, year, m + 1)
        }
}

/// No sum over the sells of a month is negative.
pub proof fn lemma_sale_not_negative(trades: Seq<TradeView>, trade: TradeView)
    ensures
        sale_proceeds(trade) >= 0,
        sale_cost(trades, trade) >= 0,
{
    assert(trade.price * trade.quantity >= 0) by (nonlinear_arith)
        requires
            trade.price >= 0,
            trade.quantity >= 0,
    ;
    match position(trades, trade.datetime.instant()) {
        Some(p) => {
            lemma_position_bounded(trades, trade.datetime.instant());
            assert(p.average() * trade.quantity >= 0) by (nonlinear_arith)
                requires
                    p.quantity > 0 ==> p.average() == p.cost / p.quantity,
                    p.quantity == 0 ==> p.average() == 0,
                    p.quantity >= 0,
                    p.cost >= 0,
                    trade.quantity >= 0,
            ;
        },
        None => {},
    }
}

/// The sums over the sells of a month grow with the part of the ledger that
/// they are taken over.
pub proof fn lemma_month_grows(trades: Seq<TradeView>, i: int, n: int, year: int, month: int)
    requires
        0 <= i <= n,
    ensures
        0 <= month_sales(trades, i, year, month) <= month_sales(trades, n, year, month),
        0 <= month_cost(trades, i, year, month) <= month_cost(trades, n, year, month),
    decreases n,
{
    if i < n {
        lemma_month_grows(trades, i, n - 1, year, month);
        lemma_sale_not_negative(trades, trades[n - 1]);
    } else if n > 0 {
        lemma_month_grows(trades, i - 1, n - 1, year, month);
        lemma_sale_not_negative(trades, trades[n - 1]);
    }
}

/// The ledger of one security.
#[derive(Debug)]
pub struct Stock {
    symbol: String,
    trades: Vec<Trade>,
}

/// What a ledger is, as a mathematical value.
pub struct StockView {
    pub symbol: Seq<char>,
    pub trades: Seq<TradeView>,
}

/// The trades are in time order, and each is well formed.
pub open spec fn ledger_wf(trades: Seq<TradeView>) -> bool {
    &&& sorted(trades)
    &&& forall|i: int| 0 <= i < trades.len() ==> (#[trigger] trades[i]).wf()
}

impl StockView {
    /// The trades are in time order, and each is well formed.
    pub open spec fn wf(self) -> bool {
        ledger_wf(self.trades)
    }
}

impl View for Stock {
    type V = StockView;

    closed spec fn view(&self) -> StockView {
        StockView { symbol: self.symbol@, trades: views(self.trades@) }
    }
}

/// Putting a trade at `at` is the sorted insertion, where every trade from
/// `at` on is dated later than it and the one before `at` is not.
pub proof fn lemma_insert_at(trades: Seq<TradeView>, trade: TradeView, at: int)
    requires
        0 <= at <= trades.len(),
        forall|j: int| at <= j < trades.len() ==>
            trades[j].datetime.instant() > trade.datetime.instant(),
        at > 0 ==> trades[at - 1].datetime.instant() <= trade.datetime.instant(),
    ensures
        insert_sorted(trades, trade) == trades.insert(at, trade),
    decreases trades.len() - at,
{
    if at == trades.len() {
        assert(trades.insert(at, trade) =~= trades.push(trade));
    } else {
        lemma_insert_at(trades.drop_last(), trade, at);
        assert(trades.drop_last().insert(at, trade).push(trades.last()) =~= trades.insert(
            at,
            trade,
        ));
    }
}

/// Where sorted insertion puts a trade: after the trades dated no later than
/// it, and before the trades dated later.
pub proof fn lemma_insert_index(trades: Seq<TradeView>, trade: TradeView) -> (at: int)
    requires
        sorted(trades),
    ensures
        0 <= at <= trades.len(),
        insert_sorted(trades, trade) == trades.insert(at, trade),
        forall|j: int| 0 <= j < at ==>
            (#[trigger] trades[j]).datetime.instant() <= trade.datetime.instant(),
        forall|j: int|
            at <= j < trades.len() ==> (#[trigger] trades[j]).datetime.instant()
                > trade.datetime.instant(),
    decreases trades.len(),
{
    if trades.len() == 0 || trades.last().datetime.instant() <= trade.datetime.instant() {
        let at = trades.len() as int;
        lemma_insert_at(trades, trade, at);
        at
    } else {
        let at = lemma_insert_index(trades.drop_last(), trade);
        assert forall|j: int| 0 <= j < at implies (#[trigger] trades[j]).datetime.instant()
            <= trade.datetime.instant() by {
            assert(trades.drop_last()[j] == trades[j]);
        }
        assert forall|j: int| at <= j < trades.len() implies
            (#[trigger] trades[j]).datetime.instant()
            > trade.datetime.instant() by {
            if j < trades.len() - 1 {
                assert(trades.drop_last()[j] == trades[j]);
            }
        }
        lemma_insert_at(trades, trade, at);
        at
    }
}

/// Sorted insertion keeps a ledger in time order.
pub proof fn lemma_insert_sorted(trades: Seq<TradeView>, trade: TradeView)
    requires
        sorted(trades),
    ensures
        sorted(insert_sorted(trades, trade)),
        insert_sorted(trades, trade).len() == trades.len() + 1,
        insert_sorted(trades, trade).to_multiset() == trades.to_multiset().insert(trade),
    decreases trades.len(),
{
    broadcast use vstd::seq_lib::group_to_multiset_ensures;

    if trades.len() == 0 || trades.last().datetime.instant() <= trade.datetime.instant() {
    } else {
        let rest = trades.drop_last();
        lemma_insert_sorted(rest, trade);
        let inner = insert_sorted(rest, trade);
        assert(trades =~= rest.push(trades.last()));
        assert forall|i: int| 0 <= i < inner.len() implies inner[i].datetime.instant()
            <= trades.last().datetime.instant() by {
            assert(inner.to_multiset().contains(inner[i]));
            if inner[i] != trade {
                assert(rest.to_multiset().contains(inner[i]));
                let k = choose|k: int| 0 <= k < rest.len() && rest[k] == inner[i];
                assert(trades[k] == rest[k]);
            }
        }
    }
}

/// Attaching a positive split keeps a ledger well formed.
pub proof fn lemma_adjusted_wf(trades: Seq<TradeView>, split: Split)
    requires
        ledger_wf(trades),
        split.ratio.positive(),
    ensures
        ledger_wf(adjusted(trades, split)),
{
    let after = adjusted(trades, split);
    assert forall|i: int| 0 <= i < after.len() implies (#[trigger] after[i]).wf() by {
        assert(trades[i].wf());
        assert(after[i] == adjust(trades[i], split));
    }
    assert forall|i: int, j: int| 0 <= i <= j < after.len() implies after[i].datetime.instant()
        <= after[j].datetime.instant() by {
        assert(after[i].datetime == trades[i].datetime);
        assert(after[j].datetime == trades[j].datetime);
    }
}

impl Stock {
    /// The trades are in time order, and each is well formed.
    #[verifier::type_invariant]
    pub open spec fn well_formed(&self) -> bool {
        self@.wf()
    }

    /// An empty ledger for `symbol`.
    pub fn new(symbol: String) -> (stock: Stock)
        ensures
            stock@.wf(),
            stock@.symbol == symbol@,
            stock@.trades == Seq::<TradeView>::empty(),
    {
        let stock = Stock { symbol, trades: Vec::new() };
        assert(stock@.trades =~= Seq::<TradeView>::empty());
        stock
    }

    /// The ledger of `symbol` that holds `trades`, where these are in time
    /// order and each of them is well formed.
    pub fn from_trades(symbol: String, trades: Vec<Trade>) -> (made: Result<Stock, LedgerError>)
        ensures
            match made {
                Ok(stock) => {
                    &&& stock@.wf()
                    &&& stock@.symbol == symbol@
                    &&& stock@.trades == views(trades@)
                },
                Err(e) => {
                    &&& e == LedgerError::LedgerInvariantViolation
                    &&& !ledger_wf(views(trades@))
                },
            },
    {
        let ghost all = views(trades@);
        let mut i: usize = 0;
        while i < trades.len()
            invariant
                i <= trades.len(),
                all == views(trades@),
                sorted(all.take(i as int)),
                forall|j: int| 0 <= j < i ==> (#[trigger] all[j]).wf(),
            decreases trades.len() - i,
        {
            if !trades[i].is_well_formed() {
                assert(!all[i as int].wf());
                return Err(LedgerError::LedgerInvariantViolation);
            }
            if i > 0 && trades[i].datetime.is_before(&trades[i - 1].datetime) {
                assert(all[i as int].datetime.instant() < all[i - 1].datetime.instant());
                return Err(LedgerError::LedgerInvariantViolation);
            }
            let ghost seen = all.take(i as int);
            let ghost next = all.take(i + 1);
            assert forall|a: int, b: int| 0 <= a <= b < next.len() implies
                next[a].datetime.instant()
                <= next[b].datetime.instant() by {
                if b == i && a < i {
                    assert(seen[a].datetime.instant() <= seen[i - 1].datetime.instant());
                } else if b < i {
                    assert(seen[a].datetime.instant() <= seen[b].datetime.instant());
                }
            }
            i += 1;
        }
        assert(all.take(i as int) =~= all);
        Ok(Stock { symbol, trades })
    }

    /// The symbol of the security.
    pub fn symbol(&self) -> (symbol: &String)
        ensures
            symbol@ == self@.symbol,
    {
        &self.symbol
    }

    /// The trades, in time order.
    pub fn trades(&self) -> (trades: &Vec<Trade>)
        ensures
            views(trades@) == self@.trades,
    {
        &self.trades
    }

    /// The shares held and their cost as of `date`: the replay of every
    /// trade dated strictly before `date`.
    pub fn position(&self, date: &Timestamp) -> (holding: Result<Holding, LedgerError>)
        ensures
            match position(self@.trades, date.instant()) {
                Some(p) => holding matches Ok(h) && h@ == p && p.bounded(),
                None => holding matches Err(e) && e == LedgerError::LedgerInvariantViolation,
            },
    {
        let ghost all = views(self.trades@);
        let mut holding = Holding::empty();
        let mut i: usize = 0;
        while i < self.trades.len()
            invariant
                i <= self.trades.len(),
                all == views(self.trades@),
                position(all.take(i as int), date.instant()) == Some(holding@),
                holding@.bounded(),
            decreases self.trades.len() - i,
        {
            let trade = &self.trades[i];
            let ghost next = all.take(i + 1);
            assert(next.drop_last() =~= all.take(i as int));
            assert(next.last() == trade@);
            if trade.datetime.is_before(date) {
                match holding.after(trade, date) {
                    Some(h) => {
                        holding = h;
                    },
                    None => {
                        proof {
                            lemma_failure_persists(all, date.instant(), i + 1);
                        }
                        return Err(LedgerError::LedgerInvariantViolation);
                    },
                }
            }
            i += 1;
        }
        assert(all.take(i as int) =~= all);
        Ok(holding)
    }

    /// The shares held as of `date`: the shares bought less the shares sold
    /// by the trades dated strictly before `date`.
    pub fn quantity(&self, date: &Timestamp) -> (shares: Result<u32, LedgerError>)
        ensures
            match quantity_as_of(self@.trades, date.instant()) {
                Some(held) => shares matches Ok(q) && q == held,
                None => shares matches Err(e) && e == LedgerError::LedgerInvariantViolation,
            },
    {
        let ghost all = views(self.trades@);
        let ghost day = date.instant();
        let mut bought: u128 = 0;
        let mut sold: u128 = 0;
        let mut i: usize = 0;
        while i < self.trades.len()
            invariant
                i <= self.trades.len(),
                all == views(self.trades@),
                day == date.instant(),
                bought - sold == net_quantity(all.take(i as int), day),
                bought <= 0xffff_ffff * i,
                sold <= 0xffff_ffff * i,
                readable(all.take(i as int), day),
            decreases self.trades.len() - i,
        {
            let trade = &self.trades[i];
            let ghost seen = all.take(i as int);
            let ghost next = all.take(i + 1);
            assert(next.drop_last() =~= seen);
            assert(next.last() == trade@);
            assert(0xffff_ffff * (i + 1) <= 0xffff_ffff * 0x1_0000_0000_0000_0000)
                by (nonlinear_arith)
                requires
                    i < 0x1_0000_0000_0000_0000,
            ;
            if trade.datetime.is_before(date) {
                match trade.quantity(date) {
                    Some(shares) => {
                        match trade.kind {
                            TradeKind::Buy => {
                                bought = bought + shares as u128;
                            },
                            TradeKind::Sell => {
                                sold = sold + shares as u128;
                            },
                        }
                    },
                    None => {
                        assert(all[i as int] == trade@);
                        return Err(LedgerError::LedgerInvariantViolation);
                    },
                }
            }
            assert forall|j: int|
                0 <= j < next.len() && (#[trigger] next[j]).datetime.instant() < day implies
                next[j].representable(day) by {
                if j < i {
                    assert(seen[j] == next[j]);
                }
            }
            i += 1;
        }
        assert(all.take(i as int) =~= all);
        if bought < sold || bought - sold > SHARE_LIMIT as u128 {
            Err(LedgerError::LedgerInvariantViolation)
        } else {
            Ok((bought - sold) as u32)
        }
    }

    /// The average cost of a share held as of `date`, in whole millionths of
    /// the currency unit; zero where no share is held.
    pub fn average_purchase_price(&self, date: &Timestamp) -> (average: Result<u64, LedgerError>)
        ensures
            match average_cost_as_of(self@.trades, date.instant()) {
                Some(cost) => average matches Ok(a) && a == cost,
                None => average matches Err(e) && e == LedgerError::LedgerInvariantViolation,
            },
    {
        match self.position(date) {
            Ok(holding) => Ok(holding.average()),
            Err(e) => Err(e),
        }
    }

    /// Puts `trade` into the ledger, after every trade that is not dated
    /// later than it.
    fn add_trade(&mut self, trade: Trade)
        requires
            trade@.wf(),
        ensures
            final(self)@.wf(),
            final(self)@.symbol == old(self)@.symbol,
            final(self)@.trades == insert_sorted(old(self)@.trades, trade@),
    {
        proof {
            use_type_invariant(&*self);
        }
        let ghost before = views(self.trades@);
        let mut trades: Vec<Trade> = Vec::new();
        std::mem::swap(&mut trades, &mut self.trades);
        let mut at: usize = trades.len();
        while at > 0 && trade.datetime.is_before(&trades[at - 1].datetime)
            invariant
                at <= trades.len(),
                before == views(trades@),
                forall|j: int|
                    at <= j < before.len() ==> (#[trigger] before[j]).datetime.instant()
                        > trade.datetime.instant(),
            decreases at,
        {
            at -= 1;
        }
        proof {
            lemma_insert_at(before, trade@, at as int);
            lemma_insert_sorted(before, trade@);
        }
        trades.insert(at, trade);
        assert(views(trades@) =~= before.insert(at as int, trade@));
        assert forall|i: int| 0 <= i < views(trades@).len() implies (#[trigger] views(
            trades@,
        )[i]).wf() by {
            if i < at {
                assert(views(trades@)[i] == before[i]);
            } else if i > at {
                assert(views(trades@)[i] == before[i - 1]);
            }
        }
        self.trades = trades;
    }

    /// Records a buy of `quantity` shares, at least one, at `price` each.
    pub fn buy(&mut self, quantity: u32, price: u64, datetime: Timestamp)
        requires
            quantity > 0,
        ensures
            final(self)@.wf(),
            final(self)@.symbol == old(self)@.symbol,
            final(self)@.trades == insert_sorted(
                old(self)@.trades,
                fresh(TradeKind::Buy, quantity, price, datetime),
            ),
    {
        let trade = Trade { quantity, price, datetime, kind: TradeKind::Buy, splits: Vec::new() };
        assert(trade@ == fresh(TradeKind::Buy, quantity, price, datetime));
        self.add_trade(trade);
    }

    /// Attaches the split to every trade dated before `datetime`. A ratio that
    /// is not positive is refused, and the ledger stays as it was.
    pub fn split(&mut self, ratio: Ratio, datetime: Timestamp) -> (done: Result<(), LedgerError>)
        ensures
            final(self)@.wf(),
            final(self)@.symbol == old(self)@.symbol,
            ratio.positive() ==> done is Ok && final(self)@.trades == adjusted(
                old(self)@.trades,
                Split { ratio, datetime },
            ),
            !ratio.positive() ==> done == Err::<(), LedgerError>(LedgerError::InvalidSplitRatio)
                && final(self)@ == old(self)@,
    {
        proof {
            use_type_invariant(&*self);
        }
        if !ratio.is_positive() {
            return Err(LedgerError::InvalidSplitRatio);
        }
        let split = Split { ratio, datetime };
        let ghost before = views(self.trades@);
        let mut trades: Vec<Trade> = Vec::new();
        std::mem::swap(&mut trades, &mut self.trades);
        let mut i: usize = 0;
        while i < trades.len()
            invariant
                i <= trades.len(),
                split == (Split { ratio, datetime }),
                trades.len() == before.len(),
                forall|j: int| 0 <= j < i ==>
                    (#[trigger] views(trades@)[j]) == adjust(before[j], split),
                forall|j: int| i <= j < before.len() ==>
                    (#[trigger] views(trades@)[j]) == before[j],
            decreases trades.len() - i,
        {
            let ghost prev = trades@;
            if trades[i].datetime.is_before(&datetime) {
                trades[i].splits.push(split);
                assert(trades@[i as int]@ == adjust(prev[i as int]@, split));
            }
            assert forall|j: int| 0 <= j < i + 1 implies (#[trigger] views(trades@)[j]) == adjust(
                before[j],
                split,
            ) by {
                if j < i {
                    assert(views(prev)[j] == adjust(before[j], split));
                } else {
                    assert(views(prev)[j] == before[j]);
                }
            }
            assert forall|j: int| i + 1 <= j < before.len() implies (#[trigger] views(trades@)[j])
                == before[j] by {
                assert(views(prev)[j] == before[j]);
            }
            i += 1;
        }
        assert(views(trades@) =~= adjusted(before, split));
        proof {
            lemma_adjusted_wf(before, split);
        }
        self.trades = trades;
        Ok(())
    }

    /// The profit that `trade` realises against the average cost as of its
    /// own date: `(price - average) * quantity`.
    pub fn calculate_profit(&self, trade: &Trade) -> (profit: Result<i128, LedgerError>)
        ensures
            match average_cost_as_of(self@.trades, trade.datetime.instant()) {
                Some(average) => profit matches Ok(x) && x == (trade.price - average)
                    * trade.quantity,
                None => profit matches Err(e) && e == LedgerError::LedgerInvariantViolation,
            },
    {
        match self.average_purchase_price(&trade.datetime) {
            Ok(average) => {
                let margin: i128 = trade.price as i128 - average as i128;
                assert(-0x1_0000_0000_0000_0000 * 0x1_0000_0000 <= margin * trade.quantity
                    <= 0x1_0000_0000_0000_0000 * 0x1_0000_0000) by (nonlinear_arith)
                    requires
                        -0x1_0000_0000_0000_0000 <= margin <= 0x1_0000_0000_0000_0000,
                        0 <= trade.quantity <= 0x1_0000_0000,
                ;
                Ok(margin * trade.quantity as i128)
            },
            Err(e) => Err(e),
        }
    }

    /// Records a sell of `quantity` shares, at least one, at `price` each and
    /// returns the profit it realises. Nothing is recorded where the ledger
    /// cannot be replayed up to `datetime`, or holds fewer than `quantity`
    /// shares then.
    pub fn sell(&mut self, quantity: u32, price: u64, datetime: Timestamp) -> (profit: Result<
        i128,
        LedgerError,
    >)
        requires
            quantity > 0,
        ensures
            final(self)@.wf(),
            final(self)@.symbol == old(self)@.symbol,
            match quantity_as_of(old(self)@.trades, datetime.instant()) {
                None => {
                    &&& profit matches Err(e) && e == LedgerError::LedgerInvariantViolation
                    &&& final(self)@ == old(self)@
                },
                Some(held) => if held < quantity {
                    &&& profit matches Err(e) && e == LedgerError::InsufficientShares
                    &&& final(self)@ == old(self)@
                } else {
                    match average_cost_as_of(old(self)@.trades, datetime.instant()) {
                        None => {
                            &&& profit matches Err(e) && e == LedgerError::LedgerInvariantViolation
                            &&& final(self)@ == old(self)@
                        },
                        Some(average) => {
                            &&& profit matches Ok(x) && x == (price - average) * quantity
                            &&& final(self)@.trades == insert_sorted(
                                old(self)@.trades,
                                fresh(TradeKind::Sell, quantity, price, datetime),
                            )
                        },
                    }
                },
            },
    {
        proof {
            use_type_invariant(&*self);
        }
        let held = match self.quantity(&datetime) {
            Ok(q) => q,
            Err(e) => {
                return Err(e);
            },
        };
        if held < quantity {
            return Err(LedgerError::InsufficientShares);
        }
        let trade = Trade { quantity, price, datetime, kind: TradeKind::Sell, splits: Vec::new() };
        assert(trade@ == fresh(TradeKind::Sell, quantity, price, datetime));
        match self.calculate_profit(&trade) {
            Ok(profit) => {
                self.add_trade(trade);
                Ok(profit)
            },
            Err(e) => Err(e),
        }
    }

    /// Adds the sells of `year` to the twelve months of `summaries`: to each
    /// month what its sells brought in, and their profit over the average
    /// cost as of the date of each sell. Nothing is added where the ledger
    /// cannot be replayed up to one of these sells, or where a month would
    /// leave the limit.
    pub(crate) fn update_profit_by_month(
        &self,
        summaries: &mut [MonthSummary; 12],
        year: i32,
    ) -> (done: Result<(), LedgerError>)
        requires
            forall|m: int| 0 <= m < 12 ==> (#[trigger] old(summaries)@[m]).wf(),
        ensures
            done is Ok <==> sales_replayable(self@.trades, self@.trades.len() as int, year as int)
                && months_fit(old(summaries)@, self@.trades, self@.trades.len() as int,
                    year as int),
            done is Ok ==> months_added(
                old(summaries)@,
                final(summaries)@,
                self@.trades,
                self@.trades.len() as int,
                year as int,
            ),
            done matches Err(e) ==> e == LedgerError::LedgerInvariantViolation && *final(summaries)
                == *old(summaries),
    {
        let ghost all = views(self.trades@);
        let ghost before = summaries@;
        let mut totals: [MonthSummary; 12] = *summaries;
        let mut i: usize = 0;
        while i < self.trades.len()
            invariant
                i <= self.trades.len(),
                all == views(self.trades@),
                all == self@.trades,
                before == old(summaries)@,
                *summaries == *old(summaries),
                forall|m: int| 0 <= m < 12 ==> (#[trigger] before[m]).wf(),
                sales_replayable(all, i as int, year as int),
                months_added(before, totals@, all, i as int, year as int),
            decreases self.trades.len() - i,
        {
            let trade = &self.trades[i];
            assert(all[i as int] == trade@);
            let sold: bool = match trade.kind {
                TradeKind::Sell => trade.datetime.year() == year,
                TradeKind::Buy => false,
            };
            if sold {
                let month: usize = (trade.datetime.month() - 1) as usize;
                let average = match self.average_purchase_price(&trade.datetime) {
                    Ok(a) => a,
                    Err(e) => {
                        return Err(e);
                    },
                };
                assert(trade.price * trade.quantity <= 0xffff_ffff_ffff_ffff * 0xffff_ffff)
                    by (nonlinear_arith)
                    requires
                        0 <= trade.price <= 0xffff_ffff_ffff_ffff,
                        0 <= trade.quantity <= 0xffff_ffff,
                ;
                assert(average * trade.quantity <= 0xffff_ffff_ffff_ffff * 0xffff_ffff)
                    by (nonlinear_arith)
                    requires
                        0 <= average <= 0xffff_ffff_ffff_ffff,
                        0 <= trade.quantity <= 0xffff_ffff,
                ;
                let proceeds: u128 = trade.price as u128 * trade.quantity as u128;
                let cost: u128 = average as u128 * trade.quantity as u128;
                assert(proceeds == sale_proceeds(all[i as int]));
                assert(cost == sale_cost(all, all[i as int]));
                assert(sold_in(all[i as int], year as int, month + 1));
                match totals[month].record(proceeds, cost) {
                    Some(total) => {
                        totals[month] = total;
                    },
                    None => {
                        proof {
                            lemma_month_grows(all, i + 1, all.len() as int, year as int, month + 1);
                            assert(before[month as int].wf());
                        }
                        return Err(LedgerError::LedgerInvariantViolation);
                    },
                }
            }
            i += 1;
        }
        assert forall|m: int| #![trigger before[m]] 0 <= m < 12 implies before[m].sold_amount
            + month_sales(all, i as int, year as int, m + 1) <= AMOUNT_LIMIT && before[m].cost()
            + month_cost(all, i as int, year as int, m + 1) <= AMOUNT_LIMIT by {
            assert(totals@[m].wf());
        }
        *summaries = totals;
        Ok(())
    }
}

} // verus!

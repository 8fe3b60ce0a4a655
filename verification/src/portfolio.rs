//! A portfolio: one ledger for each security that was ever traded, found by
//! its symbol.

use crate::error::LedgerError;
use crate::stock::{
    adjusted, fresh, insert_sorted, lemma_month_grows, month_cost, month_sales, sales_replayable,
    Stock, StockView,
};
use crate::summary::{profit_summary_rows, MonthSummary, ProfitSummaryData, AMOUNT_LIMIT};
use crate::position::{average_cost_as_of, quantity_as_of};
use crate::timestamp::Timestamp;
use crate::trade::{Ratio, Split, TradeKind, TradeView};
use vstd::prelude::*;

verus! {

/// The upper-case form of a symbol, by which its ledger is found.
pub uninterp spec fn uppercase(symbol: Seq<char>) -> Seq<char>;

/// Trusted, not proved: `str::to_uppercase`, which returns the upper-case
/// form of the string as Unicode defines it. The contract claims one thing of
/// it: that what comes back depends on the characters of the string alone,
/// which is what `uppercase` names.
#[verifier::external_body]
fn canonical(symbol: &str) -> (key: String)
    ensures
        key@ == uppercase(symbol@),
{
    symbol.to_uppercase()
}

/// The ledgers of a portfolio as mathematical values.
pub open spec fn ledgers(stocks: Seq<Stock>) -> Seq<StockView> {
    stocks.map_values(|s: Stock| s@)
}

/// No two ledgers have the same symbol.
pub open spec fn distinct(stocks: Seq<StockView>) -> bool {
    forall|i: int, j: int|
        0 <= i < j < stocks.len() ==> (#[trigger] stocks[i]).symbol != (#[trigger] stocks[j]).symbol
}

/// Each ledger is well formed, and no two have the same symbol.
pub open spec fn wf(stocks: Seq<StockView>) -> bool {
    &&& distinct(stocks)
    &&& forall|i: int| 0 <= i < stocks.len() ==> (#[trigger] stocks[i]).wf()
}

/// Whether `symbol` is the upper-case form of a symbol.
pub open spec fn is_key(symbol: Seq<char>) -> bool {
    exists|of: Seq<char>| symbol == #[trigger] uppercase(of)
}

/// Whether every ledger stands under the upper-case form of a symbol, under
/// which `stock`, `buy`, `sell` and `split` find it.
pub open spec fn keyed(stocks: Seq<StockView>) -> bool {
    forall|i: int| 0 <= i < stocks.len() ==> is_key((#[trigger] stocks[i]).symbol)
}

/// Whether the symbol of every ledger is its own upper-case form.
pub open spec fn own_keys(stocks: Seq<StockView>) -> bool {
    forall|i: int|
        0 <= i < stocks.len() ==> (#[trigger] stocks[i]).symbol == uppercase(stocks[i].symbol)
}

/// Where the ledger of `symbol` stands, if there is one.
pub open spec fn find(stocks: Seq<StockView>, symbol: Seq<char>) -> Option<int>
    decreases stocks.len(),
{
    if stocks.len() == 0 {
        None
    } else if stocks.last().symbol == symbol {
        Some(stocks.len() - 1)
    } else {
        find(stocks.drop_last(), symbol)
    }
}

/// The trades of the ledger of `symbol`; none where it has no ledger.
pub open spec fn trades_of(stocks: Seq<StockView>, symbol: Seq<char>) -> Seq<TradeView> {
    match find(stocks, symbol) {
        Some(i) => stocks[i].trades,
        None => Seq::empty(),
    }
}

/// The portfolio in which the ledger of `symbol` holds `trades`: the ledger
/// is replaced where it stands, or added at the end.
pub open spec fn with_ledger(stocks: Seq<StockView>, symbol: Seq<char>, trades: Seq<TradeView>)
    -> Seq<
    StockView,
> {
    match find(stocks, symbol) {
        Some(i) => stocks.update(i, StockView { symbol, trades }),
        None => stocks.push(StockView { symbol, trades }),
    }
}

/// The portfolio after a buy of `quantity` shares of `symbol` at `price`
/// each: the buy stands in the ledger of the symbol, in time order.
pub open spec fn after_buy(
    stocks: Seq<StockView>,
    symbol: Seq<char>,
    quantity: u32,
    price: u64,
    datetime: Timestamp,
) -> Seq<StockView> {
    with_ledger(
        stocks,
        symbol,
        insert_sorted(trades_of(stocks, symbol), fresh(TradeKind::Buy, quantity, price, datetime)),
    )
}

/// The portfolio after a sell of `quantity` shares of `symbol` at `price`
/// each that was not refused.
pub open spec fn after_sell(
    stocks: Seq<StockView>,
    symbol: Seq<char>,
    quantity: u32,
    price: u64,
    datetime: Timestamp,
) -> Seq<StockView> {
    with_ledger(
        stocks,
        symbol,
        insert_sorted(trades_of(stocks, symbol), fresh(TradeKind::Sell, quantity, price, datetime)),
    )
}

/// The portfolio after `split` of `symbol`: the split is attached to every
/// trade of the ledger of the symbol that is dated before it.
pub open spec fn after_split(stocks: Seq<StockView>, symbol: Seq<char>, split: Split) -> Seq<
    StockView,
> {
    with_ledger(stocks, symbol, adjusted(trades_of(stocks, symbol), split))
}

/// Whether the ledger holds shares as of `date`.
pub open spec fn owned(stock: StockView, date: int) -> bool {
    quantity_as_of(stock.trades, date) matches Some(held) && held > 0
}

/// Whether the shares held as of `date` can be told of every ledger.
pub open spec fn countable(stocks: Seq<StockView>, date: int) -> bool {
    forall|i: int|
        0 <= i < stocks.len() ==> quantity_as_of((#[trigger] stocks[i]).trades, date) is Some
}

/// The ledgers behind references to them.
pub open spec fn ledgers_of(stocks: Seq<&Stock>) -> Seq<StockView> {
    stocks.map_values(|s: &Stock| s@)
}

/// What the sells of the first `k` ledgers, dated in the given month of the
/// given year, brought in.
pub open spec fn portfolio_sales(stocks: Seq<StockView>, k: int, year: int, month: int) -> int
    decreases k,
{
    if k <= 0 {
        0
    } else {
        portfolio_sales(stocks, k - 1, year, month) + month_sales(
            stocks[k - 1].trades,
            stocks[k - 1].trades.len() as int,
            year,
            month,
        )
    }
}

/// What the shares of those sells had cost.
pub open spec fn portfolio_cost(stocks: Seq<StockView>, k: int, year: int, month: int) -> int
    decreases k,
{
    if k <= 0 {
        0
    } else {
        portfolio_cost(stocks, k - 1, year, month) + month_cost(
            stocks[k - 1].trades,
            stocks[k - 1].trades.len() as int,
            year,
            month,
        )
    }
}

/// Whether every ledger can be replayed up to each of its sells of `year`.
pub open spec fn portfolio_replayable(stocks: Seq<StockView>, year: int) -> bool {
    forall|s: int|
        0 <= s < stocks.len() ==> sales_replayable(
            (#[trigger] stocks[s]).trades,
            stocks[s].trades.len() as int,
            year,
        )
}

/// Whether the sales and the cost of each month of `year` are within the
/// limit.
pub open spec fn portfolio_fits(stocks: Seq<StockView>, year: int) -> bool {
    forall|m: int|
        0 <= m < 12 ==> {
            &&& #[trigger] portfolio_sales(stocks, stocks.len() as int, year, m + 1) <= AMOUNT_LIMIT
            &&& portfolio_cost(stocks, stocks.len() as int, year, m + 1) <= AMOUNT_LIMIT
        }
}

/// The sums over the ledgers of a portfolio grow with the number of ledgers
/// that they are taken over.
pub proof fn lemma_portfolio_grows(stocks: Seq<StockView>, i: int, k: int, year: int, month: int)
    requires
        0 <= i <= k,
    ensures
        0 <= portfolio_sales(stocks, i, year, month) <= portfolio_sales(stocks, k, year, month),
        0 <= portfolio_cost(stocks, i, year, month) <= portfolio_cost(stocks, k, year, month),
    decreases k,
{
    if k > 0 {
        let trades = stocks[k - 1].trades;
        lemma_month_grows(trades, 0, trades.len() as int, year, month);
        if i < k {
            lemma_portfolio_grows(stocks, i, k - 1, year, month);
        } else {
            lemma_portfolio_grows(stocks, i - 1, k - 1, year, month);
        }
    }
}

/// A symbol that is found stands where it is found, and one that is not
/// found stands nowhere.
pub proof fn lemma_find(stocks: Seq<StockView>, symbol: Seq<char>)
    ensures
        match find(stocks, symbol) {
            Some(i) => 0 <= i < stocks.len() && stocks[i].symbol == symbol,
            None => forall|j: int| 0 <= j < stocks.len() ==>
                (#[trigger] stocks[j]).symbol != symbol,
        },
    decreases stocks.len(),
{
    if stocks.len() > 0 && stocks.last().symbol != symbol {
        lemma_find(stocks.drop_last(), symbol);
        assert forall|j: int| 0 <= j < stocks.len() && find(stocks, symbol) is None implies (
        #[trigger] stocks[j]).symbol != symbol by {
            if j < stocks.len() - 1 {
                assert(stocks.drop_last()[j] == stocks[j]);
            }
        }
    }
}

/// Among distinct symbols, a symbol is found where it stands.
pub proof fn lemma_find_at(stocks: Seq<StockView>, i: int)
    requires
        distinct(stocks),
        0 <= i < stocks.len(),
    ensures
        find(stocks, stocks[i].symbol) == Some(i),
    decreases stocks.len(),
{
    if i < stocks.len() - 1 {
        assert(stocks[i].symbol != stocks[stocks.len() - 1].symbol);
        assert(stocks.drop_last()[i] == stocks[i]);
        lemma_find_at(stocks.drop_last(), i);
    }
}

/// Replacing or adding a well-formed ledger keeps a portfolio well formed.
pub proof fn lemma_with_ledger_wf(stocks: Seq<StockView>, symbol: Seq<char>, trades: Seq<TradeView>)
    requires
        wf(stocks),
        (StockView { symbol, trades }).wf(),
    ensures
        wf(with_ledger(stocks, symbol, trades)),
{
    lemma_find(stocks, symbol);
    let after = with_ledger(stocks, symbol, trades);
    match find(stocks, symbol) {
        Some(i) => {
            assert forall|a: int, b: int| 0 <= a < b < after.len() implies
                (#[trigger] after[a]).symbol
                != (#[trigger] after[b]).symbol by {
                assert(after[a].symbol == stocks[a].symbol);
                assert(after[b].symbol == stocks[b].symbol);
            }
            assert forall|a: int| 0 <= a < after.len() implies (#[trigger] after[a]).wf() by {
                if a != i {
                    assert(after[a] == stocks[a]);
                }
            }
        },
        None => {
            assert forall|a: int, b: int| 0 <= a < b < after.len() implies
                (#[trigger] after[a]).symbol
                != (#[trigger] after[b]).symbol by {
                assert(after[a] == stocks[a]);
                if b < stocks.len() {
                    assert(after[b] == stocks[b]);
                }
            }
            assert forall|a: int| 0 <= a < after.len() implies (#[trigger] after[a]).wf() by {
                if a < stocks.len() {
                    assert(after[a] == stocks[a]);
                }
            }
        },
    }
}

/// Every ledger of a portfolio is found under a symbol.
pub proof fn law_every_ledger_is_found(stocks: Seq<StockView>, i: int) -> (symbol: Seq<char>)
    requires
        wf(stocks),
        keyed(stocks),
        0 <= i < stocks.len(),
    ensures
        find(stocks, uppercase(symbol)) == Some(i),
{
    assert(is_key(stocks[i].symbol));
    let symbol = choose|of: Seq<char>| stocks[i].symbol == #[trigger] uppercase(of);
    lemma_find_at(stocks, i);
    symbol
}

/// The ledgers of every security that was ever traded.
#[derive(Debug)]
pub struct Portfolio {
    stocks: Vec<Stock>,
}

impl View for Portfolio {
    type V = Seq<StockView>;

    closed spec fn view(&self) -> Seq<StockView> {
        ledgers(self.stocks@)
    }
}

/// Where the ledger that stands under `key` stands among `stocks`.
pub fn find_keyed(stocks: &Vec<Stock>, key: &String) -> (at: Option<usize>)
    ensures
        match at {
            Some(i) => find(ledgers(stocks@), key@) == Some(i as int) && i < stocks.len(),
            None => find(ledgers(stocks@), key@) is None,
        },
{
    let ghost all = ledgers(stocks@);
    let mut i: usize = stocks.len();
    assert(all.take(i as int) =~= all);
    while i > 0
        invariant
            i <= stocks.len(),
            all == ledgers(stocks@),
            find(all, key@) == find(all.take(i as int), key@),
        decreases i,
    {
        let ghost seen = all.take(i as int);
        assert(seen.last() == stocks@[i - 1]@);
        assert(seen.drop_last() =~= all.take(i - 1));
        if *stocks[i - 1].symbol() == *key {
            return Some(i - 1);
        }
        i -= 1;
    }
    assert(all.take(0) =~= Seq::<StockView>::empty());
    None
}

/// Replacing or adding a ledger under a key keeps every ledger under a key.
pub proof fn lemma_with_ledger_keyed(
    stocks: Seq<StockView>,
    symbol: Seq<char>,
    trades: Seq<TradeView>,
)
    requires
        keyed(stocks),
        is_key(symbol),
    ensures
        keyed(with_ledger(stocks, symbol, trades)),
{
    lemma_find(stocks, symbol);
    let after = with_ledger(stocks, symbol, trades);
    assert forall|i: int| 0 <= i < after.len() implies is_key((#[trigger] after[i]).symbol) by {
        if i < stocks.len() {
            assert(is_key(stocks[i].symbol));
            assert(after[i].symbol == stocks[i].symbol);
        }
    }
}

/// The ledger that stands under `key`, if there is one.
pub fn stock_keyed<'a>(stocks: &'a Vec<Stock>, key: &String) -> (stock: Option<&'a Stock>)
    ensures
        match find(ledgers(stocks@), key@) {
            Some(i) => stock matches Some(s) && s@ == ledgers(stocks@)[i],
            None => stock is None,
        },
{
    match find_keyed(stocks, key) {
        Some(i) => Some(&stocks[i]),
        None => None,
    }
}

/// Records a buy of `quantity` shares, at least one, at `price` each in the
/// ledger that stands under `key`, which is opened if there is none.
pub fn buy_keyed(
    stocks: &mut Vec<Stock>,
    key: String,
    quantity: u32,
    price: u64,
    datetime: Timestamp,
)
    requires
        wf(ledgers(old(stocks)@)),
        quantity > 0,
    ensures
        wf(ledgers(final(stocks)@)),
        ledgers(final(stocks)@) == after_buy(
            ledgers(old(stocks)@),
            key@,
            quantity,
            price,
            datetime,
        ),
{
    let ghost before = ledgers(stocks@);
    let ghost trade = fresh(TradeKind::Buy, quantity, price, datetime);
    proof {
        lemma_find(before, key@);
    }
    match find_keyed(stocks, &key) {
        Some(i) => {
            stocks[i].buy(quantity, price, datetime);
        },
        None => {
            let mut stock = Stock::new(key);
            stock.buy(quantity, price, datetime);
            stocks.push(stock);
        },
    }
    proof {
        let trades = insert_sorted(trades_of(before, key@), trade);
        assert(ledgers(stocks@) =~= with_ledger(before, key@, trades));
        lemma_with_ledger_wf(before, key@, trades);
    }
}

/// Records a sell of `quantity` shares, at least one, at `price` each in the
/// ledger that stands under `key`, and returns the profit it realises:
/// `(price - average) * quantity`, over the average cost as of `datetime`.
/// Nothing is recorded where no ledger stands under `key`, where it cannot
/// be replayed up to `datetime`, or where it holds fewer than `quantity`
/// shares then.
pub fn sell_keyed(
    stocks: &mut Vec<Stock>,
    key: &String,
    quantity: u32,
    price: u64,
    datetime: Timestamp,
) -> (profit: Result<i128, LedgerError>)
    requires
        wf(ledgers(old(stocks)@)),
        quantity > 0,
    ensures
        wf(ledgers(final(stocks)@)),
        match find(ledgers(old(stocks)@), key@) {
            None => {
                &&& profit matches Err(e) && e == LedgerError::InsufficientShares
                &&& ledgers(final(stocks)@) == ledgers(old(stocks)@)
            },
            Some(_) => match quantity_as_of(
                trades_of(ledgers(old(stocks)@), key@),
                datetime.instant(),
            ) {
                None => {
                    &&& profit matches Err(e) && e == LedgerError::LedgerInvariantViolation
                    &&& ledgers(final(stocks)@) == ledgers(old(stocks)@)
                },
                Some(held) => if held < quantity {
                    &&& profit matches Err(e) && e == LedgerError::InsufficientShares
                    &&& ledgers(final(stocks)@) == ledgers(old(stocks)@)
                } else {
                    match average_cost_as_of(
                        trades_of(ledgers(old(stocks)@), key@),
                        datetime.instant(),
                    ) {
                        None => {
                            &&& profit matches Err(e) && e == LedgerError::LedgerInvariantViolation
                            &&& ledgers(final(stocks)@) == ledgers(old(stocks)@)
                        },
                        Some(average) => {
                            &&& profit matches Ok(x) && x == (price - average) * quantity
                            &&& ledgers(final(stocks)@) == after_sell(
                                ledgers(old(stocks)@),
                                key@,
                                quantity,
                                price,
                                datetime,
                            )
                        },
                    }
                },
            },
        },
{
    let ghost before = ledgers(stocks@);
    let ghost trade = fresh(TradeKind::Sell, quantity, price, datetime);
    proof {
        lemma_find(before, key@);
    }
    match find_keyed(stocks, key) {
        Some(i) => {
            let profit = stocks[i].sell(quantity, price, datetime);
            proof {
                if profit is Ok {
                    let trades = insert_sorted(before[i as int].trades, trade);
                    assert(ledgers(stocks@) =~= with_ledger(before, key@, trades));
                    lemma_with_ledger_wf(before, key@, trades);
                } else {
                    assert(ledgers(stocks@) =~= before);
                }
            }
            profit
        },
        None => Err(LedgerError::InsufficientShares),
    }
}

/// Attaches a split to every trade dated before `datetime` of the ledger
/// that stands under `key`, which is opened if there is none. A ratio that
/// is not positive is refused, and nothing changes.
pub fn split_keyed(
    stocks: &mut Vec<Stock>,
    key: String,
    ratio: Ratio,
    datetime: Timestamp,
) -> (done: Result<(), LedgerError>)
    requires
        wf(ledgers(old(stocks)@)),
    ensures
        wf(ledgers(final(stocks)@)),
        !ratio.positive() ==> done == Err::<(), LedgerError>(LedgerError::InvalidSplitRatio)
            && ledgers(final(stocks)@) == ledgers(old(stocks)@),
        ratio.positive() ==> done is Ok && ledgers(final(stocks)@) == after_split(
            ledgers(old(stocks)@),
            key@,
            Split { ratio, datetime },
        ),
{
    if !ratio.is_positive() {
        return Err(LedgerError::InvalidSplitRatio);
    }
    let ghost before = ledgers(stocks@);
    let ghost split = Split { ratio, datetime };
    proof {
        lemma_find(before, key@);
    }
    match find_keyed(stocks, &key) {
        Some(i) => {
            let done = stocks[i].split(ratio, datetime);
        },
        None => {
            let mut stock = Stock::new(key);
            let done = stock.split(ratio, datetime);
            stocks.push(stock);
        },
    }
    proof {
        let trades = adjusted(trades_of(before, key@), split);
        assert(adjusted(Seq::<TradeView>::empty(), split) =~= Seq::<TradeView>::empty());
        assert(ledgers(stocks@) =~= with_ledger(before, key@, trades));
        lemma_with_ledger_wf(before, key@, trades);
    }
    Ok(())
}

impl Portfolio {
    /// Each ledger is well formed and stands under the upper-case form of a
    /// symbol, and no two have the same symbol.
    #[verifier::type_invariant]
    spec fn well_formed(&self) -> bool {
        wf(self@) && keyed(self@)
    }

    /// A portfolio without ledgers.
    pub fn new() -> (portfolio: Portfolio)
        ensures
            portfolio@ == Seq::<StockView>::empty(),
    {
        let portfolio = Portfolio { stocks: Vec::new() };
        assert(portfolio@ =~= Seq::<StockView>::empty());
        portfolio
    }

    /// The ledgers, in the order in which they were opened.
    pub fn stocks(&self) -> (stocks: &Vec<Stock>)
        ensures
            ledgers(stocks@) == self@,
            wf(self@),
            keyed(self@),
    {
        proof {
            use_type_invariant(self);
        }
        &self.stocks
    }

    /// The ledger of `symbol`, if one was ever opened.
    pub fn stock(&self, symbol: &str) -> (stock: Option<&Stock>)
        ensures
            match find(self@, uppercase(symbol@)) {
                Some(i) => stock matches Some(s) && s@ == self@[i],
                None => stock is None,
            },
    {
        let key = canonical(symbol);
        stock_keyed(&self.stocks, &key)
    }

    /// The ledgers that hold shares as of `date`, in the order in which they
    /// were opened.
    pub fn owned<'a>(&'a self, date: &Timestamp) -> (held: Result<Vec<&'a Stock>, LedgerError>)
        ensures
            match held {
                Ok(stocks) => {
                    &&& countable(self@, date.instant())
                    &&& ledgers_of(stocks@) == self@.filter(
                        |s: StockView| owned(s, date.instant()),
                    )
                },
                Err(e) => {
                    &&& e == LedgerError::LedgerInvariantViolation
                    &&& !countable(self@, date.instant())
                },
            },
    {
        let ghost all = self@;
        let ghost holds = |s: StockView| owned(s, date.instant());
        let mut held: Vec<&Stock> = Vec::new();
        let mut i: usize = 0;
        proof {
            reveal(Seq::filter);
            assert(all.take(0) =~= Seq::<StockView>::empty());
            assert(ledgers_of(held@) =~= all.take(0).filter(holds));
        }
        while i < self.stocks.len()
            invariant
                i <= self.stocks.len(),
                all == ledgers(self.stocks@),
                holds == |s: StockView| owned(s, date.instant()),
                forall|j: int| 0 <= j < i ==>
                    quantity_as_of((#[trigger] all[j]).trades, date.instant()) is Some,
                ledgers_of(held@) == all.take(i as int).filter(holds),
            decreases self.stocks.len() - i,
        {
            let stock = &self.stocks[i];
            let ghost seen = all.take(i as int);
            let ghost next = all.take(i + 1);
            proof {
                reveal(Seq::filter);
                assert(next.drop_last() =~= seen);
                assert(next.last() == stock@);
            }
            match stock.quantity(date) {
                Ok(shares) => {
                    if shares > 0 {
                        let ghost before = held@;
                        held.push(stock);
                        assert(ledgers_of(held@) =~= ledgers_of(before).push(stock@));
                    }
                },
                Err(e) => {
                    return Err(e);
                },
            }
            i += 1;
        }
        assert(all.take(i as int) =~= all);
        Ok(held)
    }

    /// Records a buy of `quantity` shares, at least one, of `symbol` at `price`
    /// each, in the ledger of the symbol, which is opened if there is none. A
    /// buy is never refused.
    pub fn buy(&mut self, symbol: &str, quantity: u32, price: u64, datetime: Timestamp)
        requires
            quantity > 0,
        ensures
            wf(final(self)@),
            keyed(final(self)@),
            final(self)@ == after_buy(old(self)@, uppercase(symbol@), quantity, price, datetime),
    {
        proof {
            use_type_invariant(&*self);
        }
        let key = canonical(symbol);
        let ghost before = self@;
        let mut stocks: Vec<Stock> = Vec::new();
        std::mem::swap(&mut stocks, &mut self.stocks);
        proof {
            lemma_with_ledger_keyed(
                before,
                key@,
                insert_sorted(
                    trades_of(before, key@),
                    fresh(TradeKind::Buy, quantity, price, datetime),
                ),
            );
        }
        buy_keyed(&mut stocks, key, quantity, price, datetime);
        self.stocks = stocks;
    }

    /// Records a sell of `quantity` shares, at least one, of `symbol` at
    /// `price` each and returns the profit it realises: `(price - average) *
    /// quantity`, over the average cost as of `datetime`. Nothing is recorded
    /// where the symbol has no ledger, where its ledger cannot be replayed up
    /// to `datetime`, or where it holds fewer than `quantity` shares then.
    pub fn sell(&mut self, symbol: &str, quantity: u32, price: u64, datetime: Timestamp) -> (profit:
        Result<i128, LedgerError>)
        requires
            quantity > 0,
        ensures
            wf(final(self)@),
            keyed(final(self)@),
            match find(old(self)@, uppercase(symbol@)) {
                None => {
                    &&& profit matches Err(e) && e == LedgerError::InsufficientShares
                    &&& final(self)@ == old(self)@
                },
                Some(_) => match quantity_as_of(
                    trades_of(old(self)@, uppercase(symbol@)),
                    datetime.instant(),
                ) {
                    None => {
                        &&& profit matches Err(e) && e == LedgerError::LedgerInvariantViolation
                        &&& final(self)@ == old(self)@
                    },
                    Some(held) => if held < quantity {
                        &&& profit matches Err(e) && e == LedgerError::InsufficientShares
                        &&& final(self)@ == old(self)@
                    } else {
                        match average_cost_as_of(
                            trades_of(old(self)@, uppercase(symbol@)),
                            datetime.instant(),
                        ) {
                            None => {
                                &&& profit matches Err(e) && e
                                    == LedgerError::LedgerInvariantViolation
                                &&& final(self)@ == old(self)@
                            },
                            Some(average) => {
                                &&& profit matches Ok(x) && x == (price - average) * quantity
                                &&& final(self)@ == after_sell(
                                    old(self)@,
                                    uppercase(symbol@),
                                    quantity,
                                    price,
                                    datetime,
                                )
                            },
                        }
                    },
                },
            },
    {
        proof {
            use_type_invariant(&*self);
        }
        let key = canonical(symbol);
        let ghost before = self@;
        let mut stocks: Vec<Stock> = Vec::new();
        std::mem::swap(&mut stocks, &mut self.stocks);
        proof {
            lemma_with_ledger_keyed(
                before,
                key@,
                insert_sorted(
                    trades_of(before, key@),
                    fresh(TradeKind::Sell, quantity, price, datetime),
                ),
            );
        }
        let profit = sell_keyed(&mut stocks, &key, quantity, price, datetime);
        self.stocks = stocks;
        profit
    }

    /// Attaches a split of `symbol` to every trade of its ledger dated before
    /// `datetime`; the ledger is opened if there is none. A ratio that is not
    /// positive is refused, and nothing changes.
    pub fn split(&mut self, symbol: &str, ratio: Ratio, datetime: Timestamp) -> (done: Result<
        (),
        LedgerError,
    >)
        ensures
            wf(final(self)@),
            keyed(final(self)@),
            !ratio.positive() ==> done == Err::<(), LedgerError>(LedgerError::InvalidSplitRatio)
                && final(self)@ == old(self)@,
            ratio.positive() ==> done is Ok && final(self)@ == after_split(
                old(self)@,
                uppercase(symbol@),
                Split { ratio, datetime },
            ),
    {
        proof {
            use_type_invariant(&*self);
        }
        let key = canonical(symbol);
        let ghost before = self@;
        let mut stocks: Vec<Stock> = Vec::new();
        std::mem::swap(&mut stocks, &mut self.stocks);
        proof {
            lemma_with_ledger_keyed(
                before,
                key@,
                adjusted(trades_of(before, key@), Split { ratio, datetime }),
            );
        }
        let done = split_keyed(&mut stocks, key, ratio, datetime);
        self.stocks = stocks;
        done
    }

    /// The portfolio that holds `stocks`, where no two of them have the same
    /// symbol and the symbol of each is its own upper-case form.
    pub fn from_stocks(stocks: Vec<Stock>) -> (made: Result<Portfolio, LedgerError>)
        ensures
            made is Ok <==> distinct(ledgers(stocks@)) && own_keys(ledgers(stocks@)),
            match made {
                Ok(portfolio) => {
                    &&& portfolio@ == ledgers(stocks@)
                    &&& wf(portfolio@)
                    &&& keyed(portfolio@)
                },
                Err(e) => e == LedgerError::LedgerInvariantViolation,
            },
    {
        let ghost all = ledgers(stocks@);
        let mut j: usize = 0;
        while j < stocks.len()
            invariant
                j <= stocks.len(),
                all == ledgers(stocks@),
                forall|a: int, b: int|
                    0 <= a < b < j ==> (#[trigger] all[a]).symbol != (#[trigger] all[b]).symbol,
                forall|a: int| 0 <= a < j ==> (#[trigger] all[a]).wf(),
                forall|a: int|
                    0 <= a < j ==> (#[trigger] all[a]).symbol == uppercase(all[a].symbol),
            decreases stocks.len() - j,
        {
            let stock = &stocks[j];
            proof {
                use_type_invariant(stock);
            }
            let upper = canonical(stock.symbol().as_str());
            if upper != *stock.symbol() {
                assert(all[j as int].symbol != uppercase(all[j as int].symbol));
                return Err(LedgerError::LedgerInvariantViolation);
            }
            let mut i: usize = 0;
            while i < j
                invariant
                    i <= j < stocks.len(),
                    all == ledgers(stocks@),
                    forall|a: int| 0 <= a < i ==>
                        (#[trigger] all[a]).symbol != all[j as int].symbol,
                decreases j - i,
            {
                if *stocks[i].symbol() == *stocks[j].symbol() {
                    assert(all[i as int].symbol == all[j as int].symbol);
                    return Err(LedgerError::LedgerInvariantViolation);
                }
                i += 1;
            }
            j += 1;
        }
        assert forall|a: int| 0 <= a < all.len() implies is_key((#[trigger] all[a]).symbol) by {
            assert(all[a].symbol == uppercase(all[a].symbol));
        }
        Ok(Portfolio { stocks })
    }

    /// What the sells of each month of `year` came to, over all ledgers:
    /// twelve summaries, January first. For each sell, what it brought in is
    /// its price times its quantity, and its profit is that less the average
    /// cost, as of the date of the sell, of the shares sold.
    pub fn profit_by_month(&self, year: i32) -> (months: Result<[MonthSummary; 12], LedgerError>)
        ensures
            months is Ok <==> portfolio_replayable(self@, year as int) && portfolio_fits(
                self@,
                year as int,
            ),
            months matches Ok(summaries) ==> forall|m: int|
                #![trigger summaries@[m]]
                0 <= m < 12 ==> {
                    &&& summaries@[m].wf()
                    &&& summaries@[m].sold_amount == portfolio_sales(
                        self@,
                        self@.len() as int,
                        year as int,
                        m + 1,
                    )
                    &&& summaries@[m].profit == portfolio_sales(
                        self@,
                        self@.len() as int,
                        year as int,
                        m + 1,
                    ) - portfolio_cost(self@, self@.len() as int, year as int, m + 1)
                },
            months matches Err(e) ==> e == LedgerError::LedgerInvariantViolation,
    {
        let ghost all = self@;
        let mut totals: [MonthSummary; 12] = [MonthSummary::new();12];
        let mut k: usize = 0;
        while k < self.stocks.len()
            invariant
                k <= self.stocks.len(),
                all == ledgers(self.stocks@),
                forall|s: int|
                    0 <= s < k ==> sales_replayable(
                        (#[trigger] all[s]).trades,
                        all[s].trades.len() as int,
                        year as int,
                    ),
                forall|m: int|
                    #![trigger totals@[m]]
                    0 <= m < 12 ==> {
                        &&& totals@[m].wf()
                        &&& totals@[m].sold_amount == portfolio_sales(all, k as int, year as int,
                            m + 1)
                        &&& totals@[m].profit == portfolio_sales(all, k as int, year as int, m + 1)
                            - portfolio_cost(all, k as int, year as int, m + 1)
                    },
            decreases self.stocks.len() - k,
        {
            let ghost before = totals@;
            let ghost trades = all[k as int].trades;
            match self.stocks[k].update_profit_by_month(&mut totals, year) {
                Ok(()) => {
                    assert forall|m: int| #![trigger totals@[m]] 0 <= m < 12 implies totals@[m].wf()
                        && totals@[m].sold_amount == portfolio_sales(
                        all,
                        k + 1,
                        year as int,
                        m + 1,
                    ) && totals@[m].profit == portfolio_sales(all, k + 1, year as int, m + 1)
                        - portfolio_cost(all, k + 1, year as int, m + 1) by {
                        assert(before[m].wf());
                    }
                },
                Err(e) => {
                    proof {
                        if sales_replayable(trades, trades.len() as int, year as int) {
                            let m = choose|m: int|
                                #![trigger before[m]]
                                0 <= m < 12 && !(before[m].sold_amount + month_sales(
                                    trades,
                                    trades.len() as int,
                                    year as int,
                                    m + 1,
                                ) <= AMOUNT_LIMIT && before[m].cost() + month_cost(
                                    trades,
                                    trades.len() as int,
                                    year as int,
                                    m + 1,
                                ) <= AMOUNT_LIMIT);
                            lemma_portfolio_grows(all, k + 1, all.len() as int, year as int, m + 1);
                            assert(portfolio_sales(all, all.len() as int, year as int, m + 1)
                                > AMOUNT_LIMIT || portfolio_cost(
                                all,
                                all.len() as int,
                                year as int,
                                m + 1,
                            ) > AMOUNT_LIMIT);
                        }
                    }
                    return Err(e);
                },
            }
            k += 1;
        }
        assert(all.len() == self.stocks@.len());
        assert(k as int == all.len() as int);
        assert forall|m: int| 0 <= m < 12 implies #[trigger] portfolio_sales(
            all,
            all.len() as int,
            year as int,
            m + 1,
        ) <= AMOUNT_LIMIT && portfolio_cost(all, all.len() as int, year as int, m + 1)
            <= AMOUNT_LIMIT by {
            let summary = totals@[m];
            assert(summary.wf());
            assert(summary.sold_amount == portfolio_sales(all, k as int, year as int, m + 1));
            assert(summary.profit == portfolio_sales(all, k as int, year as int, m + 1)
                - portfolio_cost(all, k as int, year as int, m + 1));
            assert(summary.cost() == portfolio_cost(all, k as int, year as int, m + 1));
        }
        assert(portfolio_fits(all, year as int));
        assert forall|s: int| 0 <= s < all.len() implies sales_replayable(
            (#[trigger] all[s]).trades,
            all[s].trades.len() as int,
            year as int,
        ) by {}
        assert(portfolio_replayable(all, year as int));
        Ok(totals)
    }
}

impl Default for Portfolio {
    /// A portfolio without ledgers.
    fn default() -> (portfolio: Portfolio)
        ensures
            portfolio@ == Seq::<StockView>::empty(),
    {
        Portfolio::new()
    }
}

/// The profit summary of `year`: for each month, January first, what its
/// sells brought in, their profit, and the tax due on it.
pub fn profit_summary(portfolio: &Portfolio, year: i32) -> (rows: Result<
    [ProfitSummaryData; 12],
    LedgerError,
>)
    ensures
        rows is Ok <==> portfolio_replayable(portfolio@, year as int) && portfolio_fits(
            portfolio@,
            year as int,
        ),
        rows matches Ok(data) ==> forall|m: int|
            #![trigger data@[m]]
            0 <= m < 12 ==> {
                let sales = portfolio_sales(portfolio@, portfolio@.len() as int, year as int,
                    m + 1);
                let cost = portfolio_cost(portfolio@, portfolio@.len() as int, year as int, m + 1);
                &&& data@[m].sold_amount == sales
                &&& data@[m].profit == sales - cost
                &&& data@[m].tax == (MonthSummary {
                    profit: data@[m].profit,
                    sold_amount: data@[m].sold_amount,
                }).spec_tax()
            },
        rows matches Err(e) ==> e == LedgerError::LedgerInvariantViolation,
{
    match portfolio.profit_by_month(year) {
        Ok(months) => {
            let rows = profit_summary_rows(&months);
            assert forall|m: int| #![trigger rows@[m]] 0 <= m < 12 implies rows@[m].sold_amount
                == months@[m].sold_amount by {
                assert(months@[m].wf());
            }
            Ok(rows)
        },
        Err(e) => Err(e),
    }
}

} // verus!

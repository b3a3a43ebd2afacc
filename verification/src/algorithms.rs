//! The decisions of the trading algorithms: moving averages of price
//! history, and the entries and exits of the percentage-change trigger.

use vstd::prelude::*;
use vstd::arithmetic::div_mod::{lemma_fundamental_div_mod, lemma_fundamental_div_mod_converse};
use crate::decimal::{
    decimal_value, difference, in_range, magnitude, parse_decimal, product_units, quot, quotient_units, Decimal,
};
use crate::portfolio_code::{checked, percentage_change, percentage_units, units_of, Portfolio, PortfolioView};
use crate::text::{field_of, first_piece, split_field, split_first, views};
use crate::trade::{
    affordable, close_trade, closed, index_to_close, lemma_last_index_of, opened, trade_cost,
    TradeView,
};

verus! {

broadcast use vstd::string::group_string_axioms;

// ---------------------------------------------------------------------------
// Moving averages
// ---------------------------------------------------------------------------

/// A line of price history, `date:price`, whose price parses.
pub open spec fn price_line(l: Seq<char>) -> bool {
    &&& field_of(l) is Some
    &&& decimal_value(field_of(l)->0) is Some
}

/// The price on a line of price history.
pub open spec fn line_price(l: Seq<char>) -> int {
    decimal_value(field_of(l)->0)->0
}

/// The sum of the prices on the lines.
pub open spec fn prices_sum(ls: Seq<Seq<char>>) -> int
    decreases ls.len(),
{
    if ls.len() == 0 {
        0
    } else {
        prices_sum(ls.drop_last()) + line_price(ls.last())
    }
}

/// The average price of the lines, truncated to millionths; none for no lines.
pub open spec fn average_units(ls: Seq<Seq<char>>) -> Option<int> {
    if ls.len() == 0 {
        None
    } else {
        Some(quot(prices_sum(ls), ls.len() as int))
    }
}

/// The date of the last line (empty for no lines).
pub open spec fn last_date(ls: Seq<Seq<char>>) -> Seq<char> {
    if ls.len() == 0 {
        Seq::<char>::empty()
    } else {
        first_piece(ls.last())
    }
}

/// Whether a line of price history has a price that parses.
pub fn price_line_valid(line: &str) -> (b: bool)
    ensures
        b == price_line(line@),
{
    match split_field(line) {
        Some(f) => parse_decimal(f.as_str()).is_some(),
        None => false,
    }
}

/// The average on a date.
#[allow(non_camel_case_types)]
#[derive(Debug)]
pub struct moving_average {
    pub date: String,
    pub average: Option<Decimal>,
}

/// Half the span of `i128`: adding it makes every price non-negative.
const PRICE_OFFSET: u128 = 0x8000_0000_0000_0000_0000_0000_0000_0000;

/// A price moved up by `PRICE_OFFSET`, so that it is non-negative.
fn offset_price(v: i128) -> (w: u128)
    ensures
        w == v + PRICE_OFFSET,
{
    if v >= 0 {
        (v as u128) + PRICE_OFFSET
    } else {
        PRICE_OFFSET - magnitude(v)
    }
}

/// The average price of days of history and the date of the last day
/// (`date:price` lines). The average is `None` for no days.
pub fn find_moving_average(days_data: &Vec<String>) -> (r: (Option<Decimal>, String))
    requires
        forall|i: int| 0 <= i < days_data.len() ==> price_line(#[trigger] days_data@[i]@),
    ensures
        units_of(r.0) == average_units(views(days_data@)),
        r.1@ == last_date(views(days_data@)),
{
    let ghost ls = views(days_data@);
    let n = days_data.len();
    if n == 0 {
        return (None, String::new());
    }
    let n_wide = n as u128;
    // The offset prices read so far add up to `sum_q * n + sum_r`.
    let mut sum_q: u128 = 0;
    let mut sum_r: u128 = 0;
    let mut date = String::new();
    let mut i: usize = 0;
    while i < n
        invariant
            0 < n == days_data.len() == ls.len() == n_wide,
            i <= n,
            ls == views(days_data@),
            forall|j: int| 0 <= j < days_data.len() ==> price_line(#[trigger] days_data@[j]@),
            sum_q * n + sum_r == prices_sum(ls.take(i as int)) + i * PRICE_OFFSET,
            sum_r < n,
            i * i128::MIN <= prices_sum(ls.take(i as int)) <= i * i128::MAX,
            date@ == last_date(ls.take(i as int)),
        decreases n - i,
    {
        let day = &days_data[i];
        assert(ls[i as int] == day@);
        assert(price_line(day@));
        let price = match split_field(day.as_str()) {
            Some(f) => match parse_decimal(f.as_str()) {
                Some(p) => p,
                None => {
                    return (None, String::new());
                },
            },
            None => {
                return (None, String::new());
            },
        };
        assert(price@ == line_price(ls[i as int]));
        let ghost next = ls.take(i + 1);
        assert(next.drop_last() =~= ls.take(i as int));
        assert(next.last() == ls[i as int]);
        let ghost total = prices_sum(next) + (i + 1) * PRICE_OFFSET;
        let w = offset_price(price.units);
        let qw = w / n_wide;
        let rw = w % n_wide;
        let mut r2 = sum_r + rw;
        let mut carry: u128 = 0;
        if r2 >= n_wide {
            r2 = r2 - n_wide;
            carry = 1;
        }
        proof {
            lemma_fundamental_div_mod(w as int, n as int);
            let big_q = sum_q + qw + carry;
            assert(big_q * n + r2 == total) by (nonlinear_arith)
                requires
                    sum_q * n + sum_r == prices_sum(ls.take(i as int)) + i * PRICE_OFFSET,
                    w == n * qw + rw,
                    r2 + carry * n == sum_r + rw,
                    prices_sum(next) == prices_sum(ls.take(i as int)) + price@,
                    w == price@ + PRICE_OFFSET,
                    total == prices_sum(next) + (i + 1) * PRICE_OFFSET,
                    big_q == sum_q + qw + carry,
            ;
            assert(total <= n * 0xffff_ffff_ffff_ffff_ffff_ffff_ffff_ffff) by (nonlinear_arith)
                requires
                    total == prices_sum(next) + (i + 1) * PRICE_OFFSET,
                    prices_sum(next) <= (i + 1) * i128::MAX,
                    i + 1 <= n,
                    PRICE_OFFSET == 0x8000_0000_0000_0000_0000_0000_0000_0000,
            ;
            assert(big_q <= 0xffff_ffff_ffff_ffff_ffff_ffff_ffff_ffff) by (nonlinear_arith)
                requires
                    big_q * n + r2 == total,
                    r2 >= 0,
                    total <= n * 0xffff_ffff_ffff_ffff_ffff_ffff_ffff_ffff,
                    n > 0,
            ;
        }
        sum_q = sum_q + qw + carry;
        sum_r = r2;
        date = split_first(day.as_str());
        i = i + 1;
    }
    assert(ls.take(n as int) =~= ls);
    let ghost total = prices_sum(ls);
    let average: i128 = if sum_q >= PRICE_OFFSET {
        proof {
            let a = sum_q - PRICE_OFFSET;
            assert(total == a * n + sum_r) by (nonlinear_arith)
                requires
                    sum_q * n + sum_r == total + n * PRICE_OFFSET,
                    a == sum_q - PRICE_OFFSET,
            ;
            assert(total >= 0) by (nonlinear_arith)
                requires
                    total == a * n + sum_r,
                    a >= 0,
                    sum_r >= 0,
                    n > 0,
            ;
            lemma_fundamental_div_mod_converse(total, n as int, a, sum_r as int);
        }
        (sum_q - PRICE_OFFSET) as i128
    } else {
        let d = PRICE_OFFSET - sum_q;
        let c = if sum_r > 0 {
            d - 1
        } else {
            d
        };
        proof {
            assert(total == sum_r - d * n) by (nonlinear_arith)
                requires
                    sum_q * n + sum_r == total + n * PRICE_OFFSET,
                    d == PRICE_OFFSET - sum_q,
            ;
            assert(d * n >= n) by (nonlinear_arith)
                requires
                    d >= 1,
                    n > 0,
            ;
            if sum_r > 0 {
                assert(-total == c * n + (n - sum_r)) by (nonlinear_arith)
                    requires
                        total == sum_r - d * n,
                        c == d - 1,
                ;
                lemma_fundamental_div_mod_converse(-total, n as int, c as int, (n - sum_r) as int);
            } else {
                lemma_fundamental_div_mod_converse(-total, n as int, c as int, 0);
            }
        }
        if c == PRICE_OFFSET {
            i128::MIN
        } else {
            -(c as i128)
        }
    };
    (Some(Decimal::from_units(average)), date)
}

/// The lines `lo..hi` of the history.
pub open spec fn window(ls: Seq<Seq<char>>, lo: int, hi: int) -> Seq<Seq<char>> {
    ls.subrange(lo, hi)
}

/// The moving average over lines `lo..hi` of the history.
fn window_average(lines: &Vec<String>, lo: usize, hi: usize) -> (r: moving_average)
    requires
        lo <= hi <= lines.len(),
        forall|i: int| lo <= i < hi ==> price_line(#[trigger] lines@[i]@),
    ensures
        units_of(r.average) == average_units(window(views(lines@), lo as int, hi as int)),
        r.date@ == last_date(window(views(lines@), lo as int, hi as int)),
{
    let mut days: Vec<String> = Vec::new();
    let mut i = lo;
    while i < hi
        invariant
            lo <= i <= hi <= lines.len(),
            views(days@) == views(lines@).subrange(lo as int, i as int),
            days.len() == i - lo,
            forall|j: int| 0 <= j < days.len() ==> days@[j]@ == lines@[lo + j]@,
        decreases hi - i,
    {
        let ghost before = days@;
        days.push(lines[i].clone());
        assert(views(days@) =~= views(lines@).subrange(lo as int, i + 1));
        i = i + 1;
    }
    assert forall|j: int| 0 <= j < days.len() implies price_line(#[trigger] days@[j]@) by {
        assert(days@[j]@ == lines@[lo + j]@);
    }
    let (average, date) = find_moving_average(&days);
    moving_average { date, average }
}

/// The moving averages that the crossover algorithm compares: over the last
/// ten and the last fifty days of history, as of today and as of one, two and
/// three days before (in that order).
pub fn moving_average_windows(all_data_lines: &Vec<String>) -> (r: (
    Vec<moving_average>,
    Vec<moving_average>,
))
    requires
        all_data_lines.len() >= 53,
        forall|i: int|
            all_data_lines.len() - 53 <= i < all_data_lines.len() ==> price_line(
                #[trigger] all_data_lines@[i]@,
            ),
    ensures
        r.0.len() == 4,
        r.1.len() == 4,
        forall|k: int|
            0 <= k < 4 ==> {
                let n = all_data_lines.len() as int;
                &&& units_of(#[trigger] r.0@[k].average) == average_units(
                    window(views(all_data_lines@), n - 10 - k, n - k),
                )
                &&& r.0@[k].date@ == last_date(window(views(all_data_lines@), n - 10 - k, n - k))
                &&& units_of(r.1@[k].average) == average_units(
                    window(views(all_data_lines@), n - 50 - k, n - k),
                )
                &&& r.1@[k].date@ == last_date(window(views(all_data_lines@), n - 50 - k, n - k))
            },
{
    let n = all_data_lines.len();
    let mut ten: Vec<moving_average> = Vec::new();
    let mut fifty: Vec<moving_average> = Vec::new();
    let mut k: usize = 0;
    while k < 4
        invariant
            k <= 4,
            n == all_data_lines.len() >= 53,
            forall|i: int| n - 53 <= i < n ==> price_line(#[trigger] all_data_lines@[i]@),
            ten.len() == k,
            fifty.len() == k,
            forall|j: int|
                0 <= j < k ==> {
                    &&& units_of(#[trigger] ten@[j].average) == average_units(
                        window(views(all_data_lines@), n - 10 - j, n - j),
                    )
                    &&& ten@[j].date@ == last_date(
                        window(views(all_data_lines@), n - 10 - j, n - j),
                    )
                    &&& units_of(fifty@[j].average) == average_units(
                        window(views(all_data_lines@), n - 50 - j, n - j),
                    )
                    &&& fifty@[j].date@ == last_date(
                        window(views(all_data_lines@), n - 50 - j, n - j),
                    )
                },
        decreases 4 - k,
    {
        ten.push(window_average(all_data_lines, n - 10 - k, n - k));
        fifty.push(window_average(all_data_lines, n - 50 - k, n - k));
        k = k + 1;
    }
    (ten, fifty)
}

// ---------------------------------------------------------------------------
// Percentage-change trigger
// ---------------------------------------------------------------------------

/// The cash balance that an algorithm starts with: 1000.
pub open spec fn algorithm_cash() -> int {
    1_000_000_000
}

/// The portfolio with its cash balance set to the algorithms' starting cash.
pub fn algorithm_start_portfolio(portfolio: Portfolio) -> (r: Portfolio)
    ensures
        r@ == (PortfolioView { cash: algorithm_cash(), trades: portfolio@.trades }),
        r.assets@ == portfolio.assets@,
{
    let mut portfolio = portfolio;
    portfolio.cash_balance = Decimal::from_units(1_000_000_000);
    portfolio
}

/// The tickers that the percentage-change trigger watches.
pub fn watched_tickers() -> (r: Vec<&'static str>)
    ensures
        r@.map_values(|s: &'static str| s@) == seq![
            "PLTR"@, "TSLA"@, "NVDA"@, "AAPL"@, "AMZN"@, "GOOG"@, "MSFT"@, "META"@, "NFLX"@,
            "AMD"@, "INTC"@, "ORCL"@, "CRM"@, "ADBE"@, "UBER"@, "TWTR"@, "SQ"@, "PYPL"@,
            "SHOP"@, "ZM"@, "BABA"@, "V"@, "MA"@, "DIS"@, "NIO"@, "RBLX"@, "LCID"@, "F"@, "GM"@,
            "FGL"@,
        ],
{
    let mut v: Vec<&'static str> = Vec::new();
    v.push("PLTR");
    v.push("TSLA");
    v.push("NVDA");
    v.push("AAPL");
    v.push("AMZN");
    v.push("GOOG");
    v.push("MSFT");
    v.push("META");
    v.push("NFLX");
    v.push("AMD");
    v.push("INTC");
    v.push("ORCL");
    v.push("CRM");
    v.push("ADBE");
    v.push("UBER");
    v.push("TWTR");
    v.push("SQ");
    v.push("PYPL");
    v.push("SHOP");
    v.push("ZM");
    v.push("BABA");
    v.push("V");
    v.push("MA");
    v.push("DIS");
    v.push("NIO");
    v.push("RBLX");
    v.push("LCID");
    v.push("F");
    v.push("GM");
    v.push("FGL");
    assert(v@.map_values(|s: &'static str| s@) =~= seq![
        "PLTR"@, "TSLA"@, "NVDA"@, "AAPL"@, "AMZN"@, "GOOG"@, "MSFT"@, "META"@, "NFLX"@,
        "AMD"@, "INTC"@, "ORCL"@, "CRM"@, "ADBE"@, "UBER"@, "TWTR"@, "SQ"@, "PYPL"@, "SHOP"@,
        "ZM"@, "BABA"@, "V"@, "MA"@, "DIS"@, "NIO"@, "RBLX"@, "LCID"@, "F"@, "GM"@, "FGL"@,
    ]);
    v
}

/// Whether a trade in `ticker` is open.
pub open spec fn has_trade_for(ts: Seq<TradeView>, ticker: Seq<char>) -> bool {
    exists|i: int| 0 <= i < ts.len() && #[trigger] ts[i].ticker == ticker
}

/// Whether the portfolio holds an open trade in `ticker`.
pub fn trade_open_for(portfolio: &Portfolio, ticker: &str) -> (b: bool)
    ensures
        b == has_trade_for(portfolio@.trades, ticker@),
{
    let wanted = String::from_str(ticker);
    let mut already_open = false;
    for i in 0..portfolio.open_trades.len()
        invariant
            wanted@ == ticker@,
            already_open == exists|j: int|
                0 <= j < i && #[trigger] portfolio@.trades[j].ticker == ticker@,
    {
        assert(portfolio@.trades[i as int].ticker == portfolio.open_trades@[i as int].ticker@);
        if wanted == portfolio.open_trades[i].ticker {
            already_open = true;
        }
    }
    already_open
}

/// Shares worth `factor` of the cash at `price`: `(cash * factor) / price`,
/// each step truncated to millionths; none where a step is out of range or
/// the price is zero.
pub open spec fn scaled_shares(cash: int, factor: int, price: int) -> Option<int> {
    let a = product_units(cash, factor);
    if !in_range(a) || price == 0 {
        None
    } else {
        checked(quotient_units(a, price))
    }
}

/// The shares that the percentage-change trigger buys, where no trade in the
/// ticker is open: one share when the price has risen more than 2% from the
/// initial price; when it has fallen more than 2%, a tenth of the cash at
/// the initial price, as a negative amount.
pub open spec fn entry_units(
    p: PortfolioView,
    ticker: Seq<char>,
    initial_price: int,
    current_price: int,
) -> Option<int> {
    match percentage_units(current_price, initial_price) {
        None => None,
        Some(change) => if has_trade_for(p.trades, ticker) {
            None
        } else if change > 2_000_000 {
            Some(1_000_000)
        } else if change < -2_000_000 {
            scaled_shares(p.cash, -100_000, initial_price)
        } else {
            None
        },
    }
}

fn shares_of_cash(cash: Decimal, factor: Decimal, price: Decimal) -> (r: Option<Decimal>)
    ensures
        units_of(r) == scaled_shares(cash@, factor@, price@),
{
    match cash.checked_mul(factor) {
        Some(a) => a.checked_div(price),
        None => None,
    }
}

/// How many shares of `ticker` the percentage-change trigger opens a trade
/// for at this tick (see `entry_units`); `None` where it opens none.
pub fn entry_shares(
    portfolio: &Portfolio,
    ticker: &str,
    initial_price: Decimal,
    current_price: Decimal,
) -> (r: Option<Decimal>)
    ensures
        units_of(r) == entry_units(portfolio@, ticker@, initial_price@, current_price@),
{
    let change = match percentage_change(current_price, initial_price) {
        Some(c) => c,
        None => {
            return None;
        },
    };
    if trade_open_for(portfolio, ticker) {
        return None;
    }
    if change.units > 2_000_000 {
        Some(Decimal::from_units(1_000_000))
    } else if change.units < -2_000_000 {
        shares_of_cash(portfolio.cash_balance, Decimal::from_units(-100_000), initial_price)
    } else {
        None
    }
}

/// The exit rule: the trade is up more than 10% on the price it was opened
/// at, `(current_price - open_price) / open_price * 100 > 10`, exactly. An
/// open price of zero makes any rise count: the gain is without bound.
pub open spec fn exit_signal(current_price: int, open_price: int) -> bool {
    if open_price > 0 {
        (current_price - open_price) * 100 > 10 * open_price
    } else if open_price < 0 {
        (current_price - open_price) * 100 < 10 * open_price
    } else {
        current_price > 0
    }
}

/// Whether the exit rule closes a trade opened at `open_price`.
fn exit_triggered(current_price: Decimal, open_price: Decimal) -> (b: bool)
    ensures
        b == exit_signal(current_price@, open_price@),
{
    let o = open_price.units;
    let c = current_price.units;
    if o == 0 {
        return c > 0;
    }
    let (below, d) = difference(c, o);
    let m = magnitude(o);
    let moved_away = if o > 0 {
        !below && c != o
    } else {
        below
    };
    let far = if d > 0xffff_ffff_ffff_ffff_ffff_ffff_ffff_ffff / 10 {
        true
    } else {
        d * 10 > m
    };
    moved_away && far
}

/// Identifiers of the trades in `ticker` that the exit rule closes, in order.
pub open spec fn closing_ids(ts: Seq<TradeView>, ticker: Seq<char>, current_price: int) -> Seq<u128>
    decreases ts.len(),
{
    if ts.len() == 0 {
        seq![]
    } else {
        let t = ts.last();
        let rest = closing_ids(ts.drop_last(), ticker, current_price);
        if t.ticker == ticker && exit_signal(current_price, t.open_price) {
            rest.push(t.uuid)
        } else {
            rest
        }
    }
}

/// The portfolio after closing the trades `ids` one after another.
pub open spec fn closed_all(p: PortfolioView, ids: Seq<u128>) -> PortfolioView
    decreases ids.len(),
{
    if ids.len() == 0 {
        p
    } else {
        closed(closed_all(p, ids.drop_last()), ids.last())
    }
}

/// The identifiers of the open trades in `ticker` that the exit rule closes
/// at `current_price`.
pub fn trades_to_close(portfolio: &Portfolio, ticker: &str, current_price: Decimal) -> (r: Vec<
    u128,
>)
    ensures
        r@ == closing_ids(portfolio@.trades, ticker@, current_price@),
{
    let wanted = String::from_str(ticker);
    let ghost ts = portfolio@.trades;
    let mut ids: Vec<u128> = Vec::new();
    let n = portfolio.open_trades.len();
    let mut i: usize = 0;
    while i < n
        invariant
            i <= n == portfolio.open_trades.len() == ts.len(),
            ts == portfolio@.trades,
            wanted@ == ticker@,
            ids@ == closing_ids(ts.take(i as int), ticker@, current_price@),
        decreases n - i,
    {
        let t = &portfolio.open_trades[i];
        assert(ts[i as int] == t@);
        let ghost next = ts.take(i + 1);
        assert(next.drop_last() =~= ts.take(i as int));
        assert(next.last() == t@);
        if wanted == t.ticker {
            let signal = exit_triggered(current_price, t.open_price);
            if signal {
                ids.push(t.uuid);
            }
        }
        i = i + 1;
    }
    assert(ts.take(n as int) =~= ts);
    ids
}

/// Closes the trades `ids` one after another.
pub fn close_trades(portfolio: Portfolio, ids: &Vec<u128>) -> (r: Portfolio)
    ensures
        r@ == closed_all(portfolio@, ids@),
        r.assets@ == portfolio.assets@,
{
    let ghost orig = portfolio@;
    let ghost orig_assets = portfolio.assets@;
    let mut portfolio = portfolio;
    let mut i: usize = 0;
    assert(ids@.take(0) =~= Seq::<u128>::empty());
    while i < ids.len()
        invariant
            i <= ids.len(),
            portfolio@ == closed_all(orig, ids@.take(i as int)),
            portfolio.assets@ == orig_assets,
        decreases ids.len() - i,
    {
        let (p, _) = close_trade(portfolio, ids[i]);
        portfolio = p;
        let ghost next = ids@.take(i + 1);
        assert(next.drop_last() =~= ids@.take(i as int));
        i = i + 1;
    }
    assert(ids@.take(ids.len() as int) =~= ids@);
    portfolio
}

/// Closes the trades in `ticker` that the exit rule closes at
/// `current_price`.
pub fn close_gaining_trades(portfolio: Portfolio, ticker: &str, current_price: Decimal) -> (r:
    Portfolio)
    ensures
        r@ == closed_all(portfolio@, closing_ids(portfolio@.trades, ticker@, current_price@)),
        r.assets@ == portfolio.assets@,
{
    let ids = trades_to_close(&portfolio, ticker, current_price);
    close_trades(portfolio, &ids)
}

/// The trigger never opens a second trade in a ticker that already has an
/// open trade.
pub proof fn law_no_second_entry(
    p: PortfolioView,
    ticker: Seq<char>,
    initial_price: int,
    current_price: int,
)
    requires
        has_trade_for(p.trades, ticker),
    ensures
        entry_units(p, ticker, initial_price, current_price) is None,
{
}

/// Closing trades never changes the cash balance.
pub proof fn law_exits_keep_cash(p: PortfolioView, ids: Seq<u128>)
    ensures
        closed_all(p, ids).cash == p.cash,
    decreases ids.len(),
{
    if ids.len() > 0 {
        law_exits_keep_cash(p, ids.drop_last());
    }
}

/// The exit rule only picks trades in the ticker whose price is given.
pub proof fn law_exits_pick_ticker(ts: Seq<TradeView>, ticker: Seq<char>, current_price: int)
    ensures
        forall|k: int|
            0 <= k < closing_ids(ts, ticker, current_price).len() ==> exists|i: int|
                0 <= i < ts.len() && ts[i].uuid == #[trigger] closing_ids(
                    ts,
                    ticker,
                    current_price,
                )[k] && ts[i].ticker == ticker && exit_signal(current_price, ts[i].open_price),
    decreases ts.len(),
{
    if ts.len() > 0 {
        let init = ts.drop_last();
        law_exits_pick_ticker(init, ticker, current_price);
        let ids = closing_ids(ts, ticker, current_price);
        let rest = closing_ids(init, ticker, current_price);
        assert forall|k: int| 0 <= k < ids.len() implies exists|i: int|
            0 <= i < ts.len() && ts[i].uuid == #[trigger] ids[k] && ts[i].ticker == ticker
                && exit_signal(current_price, ts[i].open_price) by {
            if k < rest.len() {
                assert(ids[k] == rest[k]);
                let i = choose|i: int|
                    0 <= i < init.len() && init[i].uuid == rest[k] && init[i].ticker == ticker
                        && exit_signal(current_price, init[i].open_price);
                assert(ts[i] == init[i]);
            } else {
                assert(ts[ts.len() - 1] == ts.last());
            }
        }
    }
}

/// No two open trades are in the same ticker.
pub open spec fn distinct_tickers(ts: Seq<TradeView>) -> bool {
    forall|i: int, j: int| 0 <= i < j < ts.len() ==> ts[i].ticker != ts[j].ticker
}

/// The portfolio after one tick of the percentage-change trigger on
/// `ticker`: the entry, if any, is opened under `id` at the looked-up
/// `price` where the portfolio can afford it, then the exit rule closes
/// the trades in `ticker` that it picks at `current_price`.
pub open spec fn tick(
    p: PortfolioView,
    ticker: Seq<char>,
    initial_price: int,
    current_price: int,
    price: int,
    id: u128,
) -> PortfolioView {
    let entered = match entry_units(p, ticker, initial_price, current_price) {
        Some(shares) => if affordable(p, trade_cost(price, shares)) {
            opened(p, ticker, shares, price, id)
        } else {
            p
        },
        None => p,
    };
    closed_all(entered, closing_ids(entered.trades, ticker, current_price))
}

proof fn lemma_closed_keeps_distinct(p: PortfolioView, id: u128)
    requires
        distinct_tickers(p.trades),
    ensures
        distinct_tickers(closed(p, id).trades),
{
    lemma_last_index_of(p.trades, id);
    match index_to_close(p.trades, id) {
        Some(k) => {
            {
                let r = p.trades.remove(k);
                assert forall|i: int, j: int| 0 <= i < j < r.len() implies r[i].ticker
                    != r[j].ticker by {
                    let i2 = if i < k { i } else { i + 1 };
                    let j2 = if j < k { j } else { j + 1 };
                    assert(r[i] == p.trades[i2]);
                    assert(r[j] == p.trades[j2]);
                }
            }
        },
        None => {},
    }
}

proof fn lemma_closed_all_keeps_distinct(p: PortfolioView, ids: Seq<u128>)
    requires
        distinct_tickers(p.trades),
    ensures
        distinct_tickers(closed_all(p, ids).trades),
    decreases ids.len(),
{
    if ids.len() > 0 {
        lemma_closed_all_keeps_distinct(p, ids.drop_last());
        lemma_closed_keeps_distinct(closed_all(p, ids.drop_last()), ids.last());
    }
}

/// One tick of the percentage-change trigger keeps the open trades' tickers
/// distinct: it opens a trade in a ticker only where none is open, and
/// closing trades only takes trades away.
pub proof fn law_tick_keeps_tickers_distinct(
    p: PortfolioView,
    ticker: Seq<char>,
    initial_price: int,
    current_price: int,
    price: int,
    id: u128,
)
    requires
        distinct_tickers(p.trades),
    ensures
        distinct_tickers(tick(p, ticker, initial_price, current_price, price, id).trades),
{
    let entered = match entry_units(p, ticker, initial_price, current_price) {
        Some(shares) => if affordable(p, trade_cost(price, shares)) {
            opened(p, ticker, shares, price, id)
        } else {
            p
        },
        None => p,
    };
    if let Some(shares) = entry_units(p, ticker, initial_price, current_price) {
        if affordable(p, trade_cost(price, shares)) {
            assert(!has_trade_for(p.trades, ticker));
            let ts = entered.trades;
            assert forall|i: int, j: int| 0 <= i < j < ts.len() implies ts[i].ticker
                != ts[j].ticker by {
                if j == p.trades.len() {
                    assert(ts[i] == p.trades[i]);
                    assert(ts[j].ticker == ticker);
                } else {
                    assert(ts[i] == p.trades[i]);
                    assert(ts[j] == p.trades[j]);
                }
            }
        }
    }
    lemma_closed_all_keeps_distinct(entered, closing_ids(entered.trades, ticker, current_price));
}


/// After a fall of more than 2%, with no trade open in the ticker, the
/// trigger opens `(cash * -0.1) / initial_price` shares: a tenth of the cash,
/// negated and truncated to millionths, divided by the initial price and
/// truncated again; none where a step leaves the decimal range.
pub proof fn law_fall_entry_scales_with_cash(
    p: PortfolioView,
    ticker: Seq<char>,
    initial_price: int,
    current_price: int,
)
    requires
        forall|i: int| 0 <= i < p.trades.len() ==> p.trades[i].ticker != ticker,
        percentage_units(current_price, initial_price) matches Some(change) && change
            < -2_000_000,
    ensures
        ({
            let tenth = quot(p.cash * -100_000, 1_000_000);
            let shares = quot(tenth * 1_000_000, initial_price);
            entry_units(p, ticker, initial_price, current_price) == if in_range(tenth) && in_range(
                shares,
            ) {
                Some(shares)
            } else {
                None::<int>
            }
        }),
{
    law_open_check_is_exact(p.trades, ticker);
}

/// A ticker counts as already traded only where an open trade's ticker is
/// exactly that ticker: trades in other tickers (`FGL` for `F`) never block
/// an entry.
pub proof fn law_open_check_is_exact(ts: Seq<TradeView>, ticker: Seq<char>)
    ensures
        (forall|i: int| 0 <= i < ts.len() ==> ts[i].ticker != ticker) ==> !has_trade_for(
            ts,
            ticker,
        ),
        forall|i: int| 0 <= i < ts.len() && ts[i].ticker == ticker ==> has_trade_for(ts, ticker),
{
}

/// With no trade open in the ticker, a rise of more than 2% enters one
/// share, whatever trades are open in other tickers.
pub proof fn law_rise_entry_is_one_share(
    p: PortfolioView,
    ticker: Seq<char>,
    initial_price: int,
    current_price: int,
)
    requires
        forall|i: int| 0 <= i < p.trades.len() ==> p.trades[i].ticker != ticker,
        percentage_units(current_price, initial_price) matches Some(change) && change > 2_000_000,
    ensures
        entry_units(p, ticker, initial_price, current_price) == Some(1_000_000int),
{
    law_open_check_is_exact(p.trades, ticker);
}

} // verus!

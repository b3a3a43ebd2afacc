//! The portfolio: cash balance, assets and open trades; changing the cash
//! balance; reporting on trades; and the save-file format.

use vstd::prelude::*;
use std::collections::HashMap;
use crate::decimal::{
    difference, lemma_quot_scaled, magnitude, mul_div_floor, quot, signed_units, product_units,
    decimal_text, decimal_value, i32_value, in_range, lemma_decimal_text_plain,
    lemma_decimal_text_roundtrip, lemma_i32_text_roundtrip, parse_decimal, parse_i32, Decimal,
};
use crate::ids::{lemma_uuid_text_plain, parse_trade_id, trade_id_text, uuid_parse, uuid_text};
use crate::text::{
    digits_of, field_of, join_lines, lemma_digits_have_no_separators, lemma_digits_of,
    lemma_field_of_labeled, lemma_join_lines_push, lemma_text_lines_join, number_text, plain_line,
    push_str, split_field, string_of, text_lines, views,
};
use crate::trade::{trade_position, TradeView};

verus! {

broadcast use vstd::string::group_string_axioms;

/// Cash, assets and open trades.
#[derive(Debug, PartialEq)]
pub struct Portfolio {
    pub cash_balance: Decimal,
    pub assets: HashMap<String, Decimal>,
    pub open_trades: Vec<trade_position>,
}

/// The cash balance and open trades of a portfolio, as plain values.
pub struct PortfolioView {
    pub cash: int,
    pub trades: Seq<TradeView>,
}

impl View for Portfolio {
    type V = PortfolioView;

    open spec fn view(&self) -> PortfolioView {
        PortfolioView {
            cash: self.cash_balance@,
            trades: self.open_trades@.map_values(|t: trade_position| t@),
        }
    }
}

/// An empty portfolio: no cash, no assets, no trades.
pub fn blank_portfolio() -> (p: Portfolio)
    ensures
        p@.cash == 0,
        p@.trades == Seq::<TradeView>::empty(),
        p.assets@ == Map::<String, Decimal>::empty(),
{
    let p = Portfolio {
        cash_balance: Decimal::from_units(0),
        assets: HashMap::new(),
        open_trades: Vec::new(),
    };
    assert(p@.trades =~= Seq::<TradeView>::empty());
    p
}

/// The portfolio with `update` added to its cash balance.
pub open spec fn cash_updated(p: PortfolioView, update: int) -> PortfolioView {
    PortfolioView { cash: p.cash + update, trades: p.trades }
}

/// Adds `update_value` (which may be negative) to the cash balance. Where
/// the new balance would leave the decimal range, the portfolio stays as it
/// was.
pub fn update_cash_balance(portfolio: Portfolio, update_value: Decimal) -> (res: Portfolio)
    ensures
        in_range(portfolio@.cash + update_value@) ==> res@ == cash_updated(portfolio@, update_value@),
        !in_range(portfolio@.cash + update_value@) ==> res@ == portfolio@,
        res.assets@ == portfolio.assets@,
{
    let mut portfolio = portfolio;
    if let Some(new_value) = portfolio.cash_balance.checked_add(update_value) {
        portfolio.cash_balance = new_value;
    }
    portfolio
}

/// Changing the cash balance by an amount and then by its negation gives the
/// portfolio back; two changes add up.
pub proof fn law_cash_updates_add_up(p: PortfolioView, a: int, b: int)
    ensures
        cash_updated(cash_updated(p, a), -a) == p,
        cash_updated(cash_updated(p, a), b) == cash_updated(p, a + b),
{
}

// ---------------------------------------------------------------------------
// Reporting on trades
// ---------------------------------------------------------------------------

/// `v` where it is in decimal range.
pub open spec fn checked(v: int) -> Option<int> {
    if in_range(v) {
        Some(v)
    } else {
        None
    }
}

/// The units of an optional decimal.
pub open spec fn units_of(d: Option<Decimal>) -> Option<int> {
    match d {
        Some(x) => Some(x@),
        None => None,
    }
}

/// `((current - base) / base) * 100` in millionths, truncated toward zero;
/// `None` where `base` is zero or the result leaves the decimal range.
pub open spec fn percentage_units(current: int, base: int) -> Option<int> {
    if base == 0 {
        None
    } else {
        checked(quot((current - base) * 100_000_000, base))
    }
}

/// The percentage by which `current` differs from `base` (see
/// `percentage_units`).
pub fn percentage_change(current: Decimal, base: Decimal) -> (r: Option<Decimal>)
    ensures
        units_of(r) == percentage_units(current@, base@),
{
    if base.units == 0 {
        return None;
    }
    let (below, diff) = difference(current.units, base.units);
    let b = magnitude(base.units);
    let neg = below != (base.units < 0);
    proof {
        lemma_quot_scaled(current@ - base@, 100_000_000, base@);
    }
    match mul_div_floor(diff, 100_000_000, b) {
        Some(q) => signed_units(neg, q),
        None => None,
    }
}

/// How an open trade stands at the current price of its stock.
#[derive(Debug)]
pub struct TradeStatus {
    /// Current price minus open price.
    pub profit_or_loss: Option<Decimal>,
    /// The percentage gain or loss against the open price.
    pub percentage: Option<Decimal>,
    /// Current price times the number of shares.
    pub total_value: Option<Decimal>,
}

/// The profit or loss, percentage and value of a trade at `current_price`;
/// a figure is `None` where it leaves the decimal range (or, for the
/// percentage, where the open price is zero).
pub fn trade_status(trade: &trade_position, current_price: Decimal) -> (r: TradeStatus)
    ensures
        units_of(r.profit_or_loss) == checked(current_price@ - trade@.open_price),
        units_of(r.percentage) == percentage_units(current_price@, trade@.open_price),
        units_of(r.total_value) == checked(product_units(current_price@, trade@.size)),
{
    TradeStatus {
        profit_or_loss: current_price.checked_sub(trade.open_price),
        percentage: percentage_change(current_price, trade.open_price),
        total_value: current_price.checked_mul(trade.size),
    }
}

/// Whether a file named `file_name.txt` is among `files`.
pub fn save_file_listed(file_name: &str, files: &Vec<String>) -> (b: bool)
    ensures
        b == exists|i: int| 0 <= i < files.len() && #[trigger] files@[i]@ == file_name@ + ".txt"@,
{
    let mut wanted = String::from_str(file_name);
    wanted.append(".txt");
    let mut file_exisits = false;
    for i in 0..files.len()
        invariant
            wanted@ == file_name@ + ".txt"@,
            file_exisits == exists|j: int| 0 <= j < i && #[trigger] files@[j]@ == file_name@ + ".txt"@,
    {
        if wanted == files[i] {
            file_exisits = true;
        }
    }
    file_exisits
}

// ---------------------------------------------------------------------------
// Save files
// ---------------------------------------------------------------------------

/// A save-file line: a label, `:`, and a value.
pub open spec fn labeled(label: Seq<char>, value: Seq<char>) -> Seq<char> {
    label + seq![':'] + value
}

/// The seven lines that save the trade at position `index`.
pub open spec fn trade_lines(index: nat, t: TradeView) -> Seq<Seq<char>> {
    seq![
        labeled("open_trade"@, digits_of(index)),
        labeled("uuid"@, uuid_text(t.uuid)),
        labeled("ticker"@, t.ticker),
        labeled("size"@, decimal_text(t.size)),
        labeled("open_price"@, decimal_text(t.open_price)),
        labeled("close_price"@, decimal_text(t.close_price)),
        labeled("inital_value"@, decimal_text(t.inital_value)),
    ]
}

/// The lines that save the trades, in order.
pub open spec fn trades_lines(ts: Seq<TradeView>) -> Seq<Seq<char>>
    decreases ts.len(),
{
    if ts.len() == 0 {
        seq![]
    } else {
        trades_lines(ts.drop_last()) + trade_lines((ts.len() - 1) as nat, ts.last())
    }
}

/// The three lines that start a save file.
pub open spec fn header_lines(p: PortfolioView) -> Seq<Seq<char>> {
    seq![
        "version:1.0"@,
        labeled("cash_balance"@, decimal_text(p.cash)),
        labeled("number_of_open_trades"@, digits_of(p.trades.len())),
    ]
}

/// The lines of the save file of a portfolio.
pub open spec fn save_lines(p: PortfolioView) -> Seq<Seq<char>> {
    header_lines(p) + trades_lines(p.trades)
}

/// The text of the save file of a portfolio: its lines joined by `\n`.
pub open spec fn save_text(p: PortfolioView) -> Seq<char> {
    join_lines(save_lines(p))
}

/// Where the save file of that name goes.
pub open spec fn save_path(file_name: Seq<char>) -> Seq<char> {
    "./save_states/"@ + file_name + ".txt"@
}

/// The path of the save file named `file_name`.
pub fn save_file_path(file_name: &str) -> (path: String)
    ensures
        path@ == save_path(file_name@),
{
    let mut path = String::from_str("./save_states/");
    path.append(file_name);
    path.append(".txt");
    path
}

/// Appends `\n`, the label, `:` and the value.
fn add_line(out: &mut Vec<char>, Ghost(ls): Ghost<Seq<Seq<char>>>, label: &str, value: &str)
    requires
        ls.len() >= 1,
        old(out)@ == join_lines(ls),
    ensures
        final(out)@ == join_lines(ls.push(labeled(label@, value@))),
{
    proof {
        lemma_join_lines_push(ls, labeled(label@, value@));
    }
    out.push('\n');
    push_str(out, label);
    out.push(':');
    push_str(out, value);
    assert(final(out)@ =~= join_lines(ls) + seq!['\n'] + labeled(label@, value@));
}

proof fn lemma_trades_lines_step(ts: Seq<TradeView>, i: int)
    requires
        0 <= i < ts.len(),
    ensures
        trades_lines(ts.take(i + 1)) == trades_lines(ts.take(i)) + trade_lines(i as nat, ts[i]),
{
    let t = ts.take(i + 1);
    assert(t.drop_last() =~= ts.take(i));
    assert(t.last() == ts[i]);
}

/// The text of the save file of the portfolio (see `save_text`).
pub fn save_state_contents(portfolio: &Portfolio) -> (s: String)
    ensures
        s@ == save_text(portfolio@),
{
    let mut out: Vec<char> = Vec::new();
    push_str(&mut out, "version:1.0");
    let ghost mut ls: Seq<Seq<char>> = seq!["version:1.0"@];
    assert(out@ =~= join_lines(ls));
    let cash = portfolio.cash_balance.to_text();
    add_line(&mut out, Ghost(ls), "cash_balance", cash.as_str());
    proof {
        ls = ls.push(labeled("cash_balance"@, cash@));
    }
    let n = portfolio.open_trades.len();
    let count = number_text(n as u64);
    add_line(&mut out, Ghost(ls), "number_of_open_trades", count.as_str());
    proof {
        ls = ls.push(labeled("number_of_open_trades"@, count@));
        assert(ls =~= header_lines(portfolio@));
        assert(portfolio@.trades.take(0) =~= Seq::<TradeView>::empty());
        assert(ls =~= header_lines(portfolio@) + trades_lines(portfolio@.trades.take(0)));
    }
    let mut i: usize = 0;
    while i < n
        invariant
            i <= n == portfolio.open_trades.len() == portfolio@.trades.len(),
            ls.len() >= 1,
            out@ == join_lines(ls),
            ls == header_lines(portfolio@) + trades_lines(portfolio@.trades.take(i as int)),
        decreases n - i,
    {
        let t = &portfolio.open_trades[i];
        let ghost tv = portfolio@.trades[i as int];
        assert(t@ == tv);
        let index = number_text(i as u64);
        add_line(&mut out, Ghost(ls), "open_trade", index.as_str());
        let ghost l1 = ls.push(labeled("open_trade"@, index@));
        let id = trade_id_text(t.uuid);
        add_line(&mut out, Ghost(l1), "uuid", id.as_str());
        let ghost l2 = l1.push(labeled("uuid"@, id@));
        add_line(&mut out, Ghost(l2), "ticker", t.ticker.as_str());
        let ghost l3 = l2.push(labeled("ticker"@, t.ticker@));
        let size = t.size.to_text();
        add_line(&mut out, Ghost(l3), "size", size.as_str());
        let ghost l4 = l3.push(labeled("size"@, size@));
        let open_price = t.open_price.to_text();
        add_line(&mut out, Ghost(l4), "open_price", open_price.as_str());
        let ghost l5 = l4.push(labeled("open_price"@, open_price@));
        let close_price = t.close_price.to_text();
        add_line(&mut out, Ghost(l5), "close_price", close_price.as_str());
        let ghost l6 = l5.push(labeled("close_price"@, close_price@));
        let initial = t.inital_value.to_text();
        add_line(&mut out, Ghost(l6), "inital_value", initial.as_str());
        let ghost l7 = l6.push(labeled("inital_value"@, initial@));
        proof {
            lemma_trades_lines_step(portfolio@.trades, i as int);
            assert(l7 =~= ls + trade_lines(i as nat, tv));
            ls = l7;
        }
        i = i + 1;
    }
    proof {
        assert(portfolio@.trades.take(n as int) =~= portfolio@.trades);
    }
    string_of(&out)
}

// ---------------------------------------------------------------------------
// Loading
// ---------------------------------------------------------------------------

/// What loading a save file gives, as plain values.
pub enum LoadView {
    /// The file was read: its cash balance and trades.
    Loaded(int, Seq<TradeView>),
    /// The file was rejected with this message.
    Failed(Seq<char>),
    /// The file ends, or a line lacks its `:`, before everything was read.
    Truncated,
}

/// What reading the trades of a save file gives.
pub enum TradesView {
    Read(Seq<TradeView>),
    Failed(Seq<char>),
    Truncated,
}

/// The value of line `k`: its second `:`-separated piece, where the line
/// exists and holds a `:`.
pub open spec fn line_field(lines: Seq<Seq<char>>, k: int) -> Option<Seq<char>> {
    if 0 <= k < lines.len() {
        field_of(lines[k])
    } else {
        None
    }
}

pub open spec fn amount_error() -> Seq<char> {
    "Failed to convert to f32"@
}

pub open spec fn count_error() -> Seq<char> {
    "Failed convert number of trades to i32"@
}

pub open spec fn uuid_error() -> Seq<char> {
    "Failed to parse UUID"@
}

pub open spec fn version_error() -> Seq<char> {
    "not version 1.0"@
}

/// An amount field of a trade: `None` where the line is missing or lacks its
/// `:`, `Some(None)` where the value does not parse, else its units.
pub open spec fn amount_field(lines: Seq<Seq<char>>, k: int) -> Option<Option<int>> {
    match line_field(lines, k) {
        None => None,
        Some(f) => Some(decimal_value(f)),
    }
}

/// Reads trade `i` of a save file: its identifier, ticker, size, open price,
/// close price and initial value, on lines `4 + 7 i` to `9 + 7 i`, in that
/// order, stopping at the first line that is missing or does not parse.
pub open spec fn read_trade(lines: Seq<Seq<char>>, i: int) -> TradesView {
    let base = 4 + 7 * i;
    match line_field(lines, base) {
        None => TradesView::Truncated,
        Some(u) => match uuid_parse(u) {
            None => TradesView::Failed(uuid_error()),
            Some(id) => match line_field(lines, base + 1) {
                None => TradesView::Truncated,
                Some(ticker) => match amount_field(lines, base + 2) {
                    None => TradesView::Truncated,
                    Some(None) => TradesView::Failed(amount_error()),
                    Some(Some(size)) => match amount_field(lines, base + 3) {
                        None => TradesView::Truncated,
                        Some(None) => TradesView::Failed(amount_error()),
                        Some(Some(open_price)) => match amount_field(lines, base + 4) {
                            None => TradesView::Truncated,
                            Some(None) => TradesView::Failed(amount_error()),
                            Some(Some(close_price)) => match amount_field(lines, base + 5) {
                                None => TradesView::Truncated,
                                Some(None) => TradesView::Failed(amount_error()),
                                Some(Some(inital_value)) => TradesView::Read(
                                    seq![
                                        TradeView {
                                            uuid: id,
                                            ticker,
                                            size,
                                            open_price,
                                            close_price,
                                            inital_value,
                                        },
                                    ],
                                ),
                            },
                        },
                    },
                },
            },
        },
    }
}

/// Trades read before, followed by what reading the rest gives.
pub open spec fn prepend_trades(before: Seq<TradeView>, r: TradesView) -> TradesView {
    match r {
        TradesView::Read(ts) => TradesView::Read(before + ts),
        other => other,
    }
}

/// Reads trades `i` up to `n` (none where `n <= i`).
pub open spec fn read_trades(lines: Seq<Seq<char>>, i: int, n: int) -> TradesView
    decreases n - i,
{
    if i >= n {
        TradesView::Read(seq![])
    } else {
        match read_trade(lines, i) {
            TradesView::Read(t) => prepend_trades(t, read_trades(lines, i + 1, n)),
            other => other,
        }
    }
}

/// The load result for a cash balance and the outcome of reading the trades.
pub open spec fn loaded_with(cash: int, trades: TradesView) -> LoadView {
    match trades {
        TradesView::Read(ts) => LoadView::Loaded(cash, ts),
        TradesView::Failed(m) => LoadView::Failed(m),
        TradesView::Truncated => LoadView::Truncated,
    }
}

/// What loading the lines of a save file gives: the first line must be
/// `version:1.0`; line 1 holds the cash balance and line 2 the number of
/// trades, which are then read (see `read_trade`).
pub open spec fn load_view(lines: Seq<Seq<char>>) -> LoadView {
    if lines.len() == 0 {
        LoadView::Truncated
    } else if lines[0] != "version:1.0"@ {
        LoadView::Failed(version_error())
    } else {
        match line_field(lines, 1) {
            None => LoadView::Truncated,
            Some(c) => match decimal_value(c) {
                None => LoadView::Failed(amount_error()),
                Some(cash) => match line_field(lines, 2) {
                    None => LoadView::Truncated,
                    Some(k) => match i32_value(k) {
                        None => LoadView::Failed(count_error()),
                        Some(n) => loaded_with(cash, read_trades(lines, 0, n)),
                    },
                },
            },
        }
    }
}

proof fn lemma_prepend_step(parsed: Seq<TradeView>, tv: TradeView, rest: TradesView)
    ensures
        prepend_trades(parsed, prepend_trades(seq![tv], rest)) == prepend_trades(
            parsed.push(tv),
            rest,
        ),
{
    match rest {
        TradesView::Read(ts) => {
            assert(parsed + (seq![tv] + ts) =~= parsed.push(tv) + ts);
        },
        _ => {},
    }
}

/// What loading a save file gave.
#[derive(Debug)]
pub enum LoadOutcome {
    /// The portfolio with the file's cash balance and its trades added.
    Loaded(Portfolio),
    /// The file was rejected with this message.
    Failed(String),
    /// The file ends, or a line lacks its `:`, before everything was read.
    Truncated,
}

/// `r` is a loaded portfolio with that view and those assets.
pub open spec fn loaded_as(r: LoadOutcome, v: PortfolioView, assets: Map<String, Decimal>) -> bool {
    match r {
        LoadOutcome::Loaded(p) => p@ == v && p.assets@ == assets,
        _ => false,
    }
}

/// `r` is a rejection with message `msg`.
pub open spec fn load_failed_with(r: LoadOutcome, msg: Seq<char>) -> bool {
    match r {
        LoadOutcome::Failed(e) => e@ == msg,
        _ => false,
    }
}

enum TradeRead {
    Read(trade_position),
    Failed(String),
    Truncated,
}

fn field_at(lines: &Vec<String>, k: u64) -> (r: Option<String>)
    ensures
        match r {
            Some(f) => line_field(views(lines@), k as int) == Some(f@),
            None => line_field(views(lines@), k as int) is None,
        },
{
    if k < lines.len() as u64 {
        assert(views(lines@)[k as int] == lines@[k as int]@);
        split_field(lines[k as usize].as_str())
    } else {
        None
    }
}

/// Reads one amount field; `Err(true)` where it is missing, `Err(false)`
/// where it does not parse.
fn amount_at(lines: &Vec<String>, k: u64) -> (r: Result<Decimal, bool>)
    ensures
        match r {
            Ok(d) => amount_field(views(lines@), k as int) == Some(Some(d@)),
            Err(true) => amount_field(views(lines@), k as int) is None,
            Err(false) => amount_field(views(lines@), k as int) == Some(None::<int>),
        },
{
    match field_at(lines, k) {
        None => Err(true),
        Some(f) => match parse_decimal(f.as_str()) {
            Some(d) => Ok(d),
            None => Err(false),
        },
    }
}

fn read_trade_at(lines: &Vec<String>, i: u64) -> (r: TradeRead)
    requires
        i <= 0x7fff_ffff,
    ensures
        match r {
            TradeRead::Read(t) => read_trade(views(lines@), i as int) == TradesView::Read(seq![t@]),
            TradeRead::Failed(m) => read_trade(views(lines@), i as int) == TradesView::Failed(m@),
            TradeRead::Truncated => read_trade(views(lines@), i as int) == TradesView::Truncated,
        },
{
    let ghost ls = views(lines@);
    let base: u64 = 4 + 7 * i;
    let id = match field_at(lines, base) {
        None => {
            return TradeRead::Truncated;
        },
        Some(u) => match parse_trade_id(u.as_str()) {
            None => {
                return TradeRead::Failed(String::from_str("Failed to parse UUID"));
            },
            Some(id) => id,
        },
    };
    let ticker = match field_at(lines, base + 1) {
        None => {
            return TradeRead::Truncated;
        },
        Some(t) => t,
    };
    let size = match amount_at(lines, base + 2) {
        Ok(d) => d,
        Err(missing) => {
            return if missing {
                TradeRead::Truncated
            } else {
                TradeRead::Failed(String::from_str("Failed to convert to f32"))
            };
        },
    };
    let open_price = match amount_at(lines, base + 3) {
        Ok(d) => d,
        Err(missing) => {
            return if missing {
                TradeRead::Truncated
            } else {
                TradeRead::Failed(String::from_str("Failed to convert to f32"))
            };
        },
    };
    let close_price = match amount_at(lines, base + 4) {
        Ok(d) => d,
        Err(missing) => {
            return if missing {
                TradeRead::Truncated
            } else {
                TradeRead::Failed(String::from_str("Failed to convert to f32"))
            };
        },
    };
    let inital_value = match amount_at(lines, base + 5) {
        Ok(d) => d,
        Err(missing) => {
            return if missing {
                TradeRead::Truncated
            } else {
                TradeRead::Failed(String::from_str("Failed to convert to f32"))
            };
        },
    };
    let t = trade_position { uuid: id, ticker, size, open_price, close_price, inital_value };
    TradeRead::Read(t)
}

/// Loads the lines of a save file into the portfolio: the cash balance is
/// replaced and the trades are added after those already open (see
/// `load_view`). The assets stay as they were.
pub fn load_state_from_lines(portfolio: Portfolio, lines: &Vec<String>) -> (r: LoadOutcome)
    ensures
        match load_view(views(lines@)) {
            LoadView::Loaded(cash, ts) => loaded_as(
                r,
                PortfolioView { cash, trades: portfolio@.trades + ts },
                portfolio.assets@,
            ),
            LoadView::Failed(m) => load_failed_with(r, m),
            LoadView::Truncated => r is Truncated,
        },
{
    let ghost ls = views(lines@);
    let ghost orig = portfolio@;
    let ghost orig_assets = portfolio.assets@;
    let mut portfolio = portfolio;
    if lines.len() == 0 {
        return LoadOutcome::Truncated;
    }
    let expected = String::from_str("version:1.0");
    assert(ls[0] == lines@[0]@);
    if !(lines[0] == expected) {
        return LoadOutcome::Failed(String::from_str("not version 1.0"));
    }
    let cash = match field_at(lines, 1) {
        None => {
            return LoadOutcome::Truncated;
        },
        Some(c) => match parse_decimal(c.as_str()) {
            None => {
                return LoadOutcome::Failed(String::from_str("Failed to convert to f32"));
            },
            Some(d) => d,
        },
    };
    portfolio.cash_balance = cash;
    let n = match field_at(lines, 2) {
        None => {
            return LoadOutcome::Truncated;
        },
        Some(k) => match parse_i32(k.as_str()) {
            None => {
                return LoadOutcome::Failed(
                    String::from_str("Failed convert number of trades to i32"),
                );
            },
            Some(v) => v,
        },
    };
    let ghost total = read_trades(ls, 0, n as int);
    assert(load_view(ls) == loaded_with(cash@, total));
    let mut i: i64 = 0;
    let ghost mut parsed: Seq<TradeView> = seq![];
    while i < n as i64
        invariant
            0 <= i,
            n < 0 ==> i == 0,
            n >= 0 ==> i <= n,
            ls == views(lines@),
            total == read_trades(ls, 0, n as int),
            load_view(ls) == loaded_with(cash@, total),
            total == prepend_trades(parsed, read_trades(ls, i as int, n as int)),
            portfolio@ == (PortfolioView { cash: cash@, trades: orig.trades + parsed }),
            portfolio.assets@ == orig_assets,
        decreases n as i64 - i,
    {
        match read_trade_at(lines, i as u64) {
            TradeRead::Read(t) => {
                let ghost tv = t@;
                proof {
                    lemma_prepend_step(parsed, tv, read_trades(ls, i + 1, n as int));
                }
                let ghost before_vec = portfolio.open_trades@;
                let ghost before_view = portfolio@.trades;
                portfolio.open_trades.push(t);
                proof {
                    assert(portfolio.open_trades@ == before_vec.push(t));
                    assert(portfolio@.trades =~= before_view.push(tv));
                    parsed = parsed.push(tv);
                    assert(portfolio@.trades =~= orig.trades + parsed);
                }
            },
            TradeRead::Failed(m) => {
                assert(read_trades(ls, i as int, n as int) == TradesView::Failed(m@));
                assert(total == TradesView::Failed(m@));
                return LoadOutcome::Failed(m);
            },
            TradeRead::Truncated => {
                assert(read_trades(ls, i as int, n as int) == TradesView::Truncated);
                assert(total == TradesView::Truncated);
                return LoadOutcome::Truncated;
            },
        }
        i = i + 1;
    }
    LoadOutcome::Loaded(portfolio)
}

// ---------------------------------------------------------------------------
// Saving and loading back
// ---------------------------------------------------------------------------

/// A trade whose save lines read back unchanged: amounts in decimal range,
/// and a ticker without `:` or line break that does not end with `\r`.
pub open spec fn trade_savable(t: TradeView) -> bool {
    &&& in_range(t.size)
    &&& in_range(t.open_price)
    &&& in_range(t.close_price)
    &&& in_range(t.inital_value)
    &&& !t.ticker.contains(':')
    &&& plain_line(t.ticker)
}

/// A portfolio whose save file reads back unchanged: cash in range, no more
/// trades than an `i32` counts, each trade savable.
pub open spec fn savable(p: PortfolioView) -> bool {
    &&& in_range(p.cash)
    &&& p.trades.len() <= i32::MAX
    &&& forall|i: int| 0 <= i < p.trades.len() ==> trade_savable(#[trigger] p.trades[i])
}

/// Labels hold no separators.
proof fn lemma_label(l: Seq<char>)
    requires
        forall|i: int| 0 <= i < l.len() ==> #[trigger] l[i] != ':' && l[i] != '\n',
    ensures
        !l.contains(':'),
        !l.contains('\n'),
{
}

proof fn lemma_labels()
    ensures
        !"open_trade"@.contains(':'),
        !"open_trade"@.contains('\n'),
        !"uuid"@.contains(':'),
        !"uuid"@.contains('\n'),
        !"ticker"@.contains(':'),
        !"ticker"@.contains('\n'),
        !"size"@.contains(':'),
        !"size"@.contains('\n'),
        !"open_price"@.contains(':'),
        !"open_price"@.contains('\n'),
        !"close_price"@.contains(':'),
        !"close_price"@.contains('\n'),
        !"inital_value"@.contains(':'),
        !"inital_value"@.contains('\n'),
        !"cash_balance"@.contains(':'),
        !"cash_balance"@.contains('\n'),
        !"number_of_open_trades"@.contains(':'),
        !"number_of_open_trades"@.contains('\n'),
        plain_line("version:1.0"@),
        "version:1.0"@.len() > 0,
{
    reveal_strlit("open_trade");
    reveal_strlit("uuid");
    reveal_strlit("ticker");
    reveal_strlit("size");
    reveal_strlit("open_price");
    reveal_strlit("close_price");
    reveal_strlit("inital_value");
    reveal_strlit("cash_balance");
    reveal_strlit("number_of_open_trades");
    reveal_strlit("version:1.0");
    lemma_label("open_trade"@);
    lemma_label("uuid"@);
    lemma_label("ticker"@);
    lemma_label("size"@);
    lemma_label("open_price"@);
    lemma_label("close_price"@);
    lemma_label("inital_value"@);
    lemma_label("cash_balance"@);
    lemma_label("number_of_open_trades"@);
    let v = "version:1.0"@;
    assert forall|i: int| 0 <= i < v.len() implies v[i] != '\n' by {}
    assert(!v.contains('\n'));
}

/// A labeled line is plain where its label and value are.
proof fn lemma_labeled_plain(label: Seq<char>, value: Seq<char>)
    requires
        !label.contains('\n'),
        !value.contains('\n'),
        value.len() > 0 ==> value.last() != '\r',
    ensures
        plain_line(labeled(label, value)),
        labeled(label, value).len() > 0,
{
    let l = labeled(label, value);
    assert forall|i: int| 0 <= i < l.len() implies l[i] != '\n' by {
        if i < label.len() {
            assert(l[i] == label[i]);
            if l[i] == '\n' {
                assert(label.contains('\n'));
            }
        } else if i > label.len() {
            assert(l[i] == value[i - label.len() - 1]);
            if l[i] == '\n' {
                assert(value.contains('\n'));
            }
        }
    }
    if value.len() > 0 {
        assert(l.last() == value.last());
    }
}

/// Line `7 i + j` of the trade lines is line `j` of trade `i`.
proof fn lemma_trades_lines(ts: Seq<TradeView>)
    ensures
        trades_lines(ts).len() == 7 * ts.len(),
        forall|i: int, j: int|
            0 <= i < ts.len() && 0 <= j < 7 ==> #[trigger] trades_lines(ts)[7 * i + j]
                == trade_lines(i as nat, ts[i])[j],
    decreases ts.len(),
{
    if ts.len() > 0 {
        let init = ts.drop_last();
        lemma_trades_lines(init);
        assert forall|i: int, j: int| 0 <= i < ts.len() && 0 <= j < 7 implies #[trigger] trades_lines(
            ts,
        )[7 * i + j] == trade_lines(i as nat, ts[i])[j] by {
            if i < init.len() {
                assert(init[i] == ts[i]);
                assert(trades_lines(ts)[7 * i + j] == trades_lines(init)[7 * i + j]);
            } else {
                assert(trades_lines(ts)[7 * i + j] == trade_lines(i as nat, ts.last())[j]);
            }
        }
    }
}

/// Every save line is plain, and the last one is not empty.
proof fn lemma_save_lines_plain(p: PortfolioView)
    requires
        savable(p),
    ensures
        forall|k: int| 0 <= k < save_lines(p).len() ==> plain_line(#[trigger] save_lines(p)[k]),
        save_lines(p).len() == 3 + 7 * p.trades.len(),
        save_lines(p).last().len() > 0,
{
    lemma_labels();
    lemma_trades_lines(p.trades);
    let ls = save_lines(p);
    lemma_decimal_text_plain(p.cash);
    lemma_labeled_plain("cash_balance"@, decimal_text(p.cash));
    lemma_digits_of(p.trades.len());
    lemma_digits_have_no_separators(digits_of(p.trades.len()));
    lemma_labeled_plain("number_of_open_trades"@, digits_of(p.trades.len()));
    assert forall|k: int| 0 <= k < ls.len() implies plain_line(#[trigger] ls[k]) && ls[k].len() > 0
        || k == 0 by {
        if k >= 3 {
            let i = (k - 3) / 7;
            let j = (k - 3) % 7;
            assert(k - 3 == 7 * i + j);
            let t = p.trades[i];
            assert(trade_savable(t));
            assert(ls[k] == trades_lines(p.trades)[7 * i + j]);
            assert(ls[k] == trade_lines(i as nat, t)[j]);
            lemma_digits_of(i as nat);
            lemma_digits_have_no_separators(digits_of(i as nat));
            lemma_uuid_text_plain(t.uuid);
            lemma_decimal_text_plain(t.size);
            lemma_decimal_text_plain(t.open_price);
            lemma_decimal_text_plain(t.close_price);
            lemma_decimal_text_plain(t.inital_value);
            lemma_labeled_plain("open_trade"@, digits_of(i as nat));
            lemma_labeled_plain("uuid"@, uuid_text(t.uuid));
            lemma_labeled_plain("ticker"@, t.ticker);
            lemma_labeled_plain("size"@, decimal_text(t.size));
            lemma_labeled_plain("open_price"@, decimal_text(t.open_price));
            lemma_labeled_plain("close_price"@, decimal_text(t.close_price));
            lemma_labeled_plain("inital_value"@, decimal_text(t.inital_value));
        } else if k == 1 {
        } else if k == 2 {
        }
    }
    assert(ls[0] == "version:1.0"@);
}

/// Trade `i` of a save file reads back as it was saved.
#[verifier::rlimit(40)]
proof fn lemma_read_saved_trade(p: PortfolioView, i: int)
    requires
        savable(p),
        0 <= i < p.trades.len(),
        uuid_parse(uuid_text(p.trades[i].uuid)) == Some(p.trades[i].uuid),
    ensures
        read_trade(save_lines(p), i) == TradesView::Read(seq![p.trades[i]]),
{
    lemma_labels();
    lemma_trades_lines(p.trades);
    let ls = save_lines(p);
    let t = p.trades[i];
    assert(trade_savable(t));
    let base = 4 + 7 * i;
    assert forall|j: int| 0 <= j < 7 implies #[trigger] ls[3 + 7 * i + j] == trade_lines(
        i as nat,
        t,
    )[j] by {
        assert(ls[3 + 7 * i + j] == trades_lines(p.trades)[7 * i + j]);
    }
    assert(ls[base] == ls[3 + 7 * i + 1]);
    assert(ls[base + 1] == ls[3 + 7 * i + 2]);
    assert(ls[base + 2] == ls[3 + 7 * i + 3]);
    assert(ls[base + 3] == ls[3 + 7 * i + 4]);
    assert(ls[base + 4] == ls[3 + 7 * i + 5]);
    assert(ls[base + 5] == ls[3 + 7 * i + 6]);
    lemma_uuid_text_plain(t.uuid);
    lemma_decimal_text_plain(t.size);
    lemma_decimal_text_plain(t.open_price);
    lemma_decimal_text_plain(t.close_price);
    lemma_decimal_text_plain(t.inital_value);
    lemma_field_of_labeled("uuid"@, uuid_text(t.uuid));
    lemma_field_of_labeled("ticker"@, t.ticker);
    lemma_field_of_labeled("size"@, decimal_text(t.size));
    lemma_field_of_labeled("open_price"@, decimal_text(t.open_price));
    lemma_field_of_labeled("close_price"@, decimal_text(t.close_price));
    lemma_field_of_labeled("inital_value"@, decimal_text(t.inital_value));
    lemma_decimal_text_roundtrip(t.size);
    lemma_decimal_text_roundtrip(t.open_price);
    lemma_decimal_text_roundtrip(t.close_price);
    lemma_decimal_text_roundtrip(t.inital_value);
    assert(line_field(ls, base) == Some(uuid_text(t.uuid)));
    assert(line_field(ls, base + 1) == Some(t.ticker));
    assert(amount_field(ls, base + 2) == Some(Some(t.size)));
    assert(amount_field(ls, base + 3) == Some(Some(t.open_price)));
    assert(amount_field(ls, base + 4) == Some(Some(t.close_price)));
    assert(amount_field(ls, base + 5) == Some(Some(t.inital_value)));
}

proof fn lemma_read_saved_trades(p: PortfolioView, i: int)
    requires
        savable(p),
        0 <= i <= p.trades.len(),
        forall|k: int|
            0 <= k < p.trades.len() ==> uuid_parse(uuid_text(#[trigger] p.trades[k].uuid)) == Some(
                p.trades[k].uuid,
            ),
    ensures
        read_trades(save_lines(p), i, p.trades.len() as int) == TradesView::Read(
            p.trades.subrange(i, p.trades.len() as int),
        ),
    decreases p.trades.len() - i,
{
    let n = p.trades.len() as int;
    if i < n {
        lemma_read_saved_trade(p, i);
        lemma_read_saved_trades(p, i + 1);
        assert(seq![p.trades[i]] + p.trades.subrange(i + 1, n) =~= p.trades.subrange(i, n));
    } else {
        assert(p.trades.subrange(i, n) =~= Seq::<TradeView>::empty());
    }
}

/// Loading the save file of a portfolio gives back its cash balance and its
/// trades, where every trade is savable and the identifier parser reads each
/// identifier's text back (as `parse_trade_id` ensures of every such text).
pub proof fn law_save_then_load(p: PortfolioView)
    requires
        savable(p),
        forall|k: int|
            0 <= k < p.trades.len() ==> uuid_parse(uuid_text(#[trigger] p.trades[k].uuid)) == Some(
                p.trades[k].uuid,
            ),
    ensures
        text_lines(save_text(p)) == save_lines(p),
        load_view(text_lines(save_text(p))) == LoadView::Loaded(p.cash, p.trades),
{
    lemma_save_lines_plain(p);
    lemma_text_lines_join(save_lines(p));
    let ls = save_lines(p);
    lemma_labels();
    lemma_decimal_text_plain(p.cash);
    lemma_decimal_text_roundtrip(p.cash);
    lemma_digits_of(p.trades.len());
    lemma_digits_have_no_separators(digits_of(p.trades.len()));
    lemma_i32_text_roundtrip(p.trades.len());
    lemma_field_of_labeled("cash_balance"@, decimal_text(p.cash));
    lemma_field_of_labeled("number_of_open_trades"@, digits_of(p.trades.len()));
    assert(ls[0] == "version:1.0"@);
    assert(line_field(ls, 1) == Some(decimal_text(p.cash)));
    assert(line_field(ls, 2) == Some(digits_of(p.trades.len())));
    lemma_read_saved_trades(p, 0);
    assert(p.trades.subrange(0, p.trades.len() as int) =~= p.trades);
}


/// In the save text, the trade at position `i` is headed `open_trade:<i>`,
/// with the decimal digits of `i`, for every `i`; so no two trades share a
/// header.
pub proof fn law_save_numbers_trades(p: PortfolioView, i: int)
    requires
        0 <= i < p.trades.len(),
    ensures
        save_lines(p)[3 + 7 * i] == "open_trade"@ + seq![':'] + digits_of(i as nat),
        forall|j: int|
            0 <= j < p.trades.len() && j != i ==> #[trigger] save_lines(p)[3 + 7 * j] != save_lines(
                p,
            )[3 + 7 * i],
{
    lemma_trades_lines(p.trades);
    assert(save_lines(p)[3 + 7 * i] == trades_lines(p.trades)[7 * i + 0]);
    assert forall|j: int| 0 <= j < p.trades.len() && j != i implies #[trigger] save_lines(p)[3 + 7
        * j] != save_lines(p)[3 + 7 * i] by {
        assert(save_lines(p)[3 + 7 * j] == trades_lines(p.trades)[7 * j + 0]);
        let a = "open_trade"@ + seq![':'] + digits_of(i as nat);
        let b = "open_trade"@ + seq![':'] + digits_of(j as nat);
        let k: int = "open_trade"@.len() as int + 1;
        if a == b {
            assert(a.skip(k) =~= digits_of(i as nat));
            assert(b.skip(k) =~= digits_of(j as nat));
            lemma_digits_of(i as nat);
            lemma_digits_of(j as nat);
        }
    }
}

} // verus!

//! What the market-data services' answers mean: quotes, market status,
//! ticker searches and daily price history.

use vstd::prelude::*;
use crate::decimal::Decimal;
use crate::text::{chars_of, push_str, string_of, trim_chars, trim_class};

verus! {

broadcast use vstd::string::group_string_axioms;

/// `r` is an error with message `msg`.
pub open spec fn fails_with<T>(r: Result<T, String>, msg: Seq<char>) -> bool {
    match r {
        Err(e) => e@ == msg,
        Ok(_) => false,
    }
}

/// `r` holds one history line per day, in order.
pub open spec fn lines_for(r: Result<Vec<String>, String>, days: Seq<(String, Option<String>)>) -> bool {
    match r {
        Ok(lines) => lines.len() == days.len() && forall|i: int|
            0 <= i < days.len() ==> #[trigger] lines@[i]@ == history_line(
                days[i].0@,
                days[i].1->0@,
            ),
        Err(_) => false,
    }
}

/// The price in a quote answer: its `c` field, where it is a number.
pub fn quote_price(c_field: Option<Decimal>) -> (r: Result<Decimal, String>)
    ensures
        match c_field {
            Some(p) => r == Ok::<Decimal, String>(p),
            None => fails_with(r, "Missing or invalid 'c' field in response"@),
        },
{
    match c_field {
        Some(p) => Ok(p),
        None => Err(String::from_str("Missing or invalid 'c' field in response")),
    }
}

/// Whether the market is open, from the `isOpen` field of a market-status
/// answer, where it is a boolean.
pub fn market_open_from_response(is_open_field: Option<bool>) -> (r: Result<bool, String>)
    ensures
        match is_open_field {
            Some(b) => r == Ok::<bool, String>(b),
            None => fails_with(r, "Failed to find 'isOpen' in reponse"@),
        },
{
    match is_open_field {
        Some(value) => Ok(value),
        None => Err(String::from_str("Failed to find 'isOpen' in reponse")),
    }
}

/// The market status to show: `open`, `closed`, or a notice that it could not
/// be fetched.
pub fn get_market_status(status: &Result<bool, String>) -> (s: String)
    ensures
        s@ == match status {
            Ok(true) => "open"@,
            Ok(false) => "closed"@,
            Err(_) => "An error occurred in fetching status of market"@,
        },
{
    match status {
        Ok(true) => String::from_str("open"),
        Ok(false) => String::from_str("closed"),
        Err(_) => String::from_str("An error occurred in fetching status of market"),
    }
}

/// Whether one of the first `count` results of a ticker search (`count`
/// taken as an `i32`) has `ticker` as its display symbol.
pub open spec fn ticker_found(
    ticker: Seq<char>,
    count: i64,
    display_symbols: Seq<Option<String>>,
) -> bool {
    exists|i: int|
        0 <= i < (count as i32) && i < display_symbols.len() && symbol_is(
            #[trigger] display_symbols[i],
            ticker,
        )
}

/// A search result's display symbol is `ticker`.
pub open spec fn symbol_is(symbol: Option<String>, ticker: Seq<char>) -> bool {
    match symbol {
        Some(s) => s@ == ticker,
        None => false,
    }
}

/// Whether `ticker` is a listed ticker, from a search answer: its `count`
/// field, where it is an integer, and the display symbol of each result,
/// where it is a string.
pub fn ticker_listed(ticker: &str, count: Option<i64>, display_symbols: &Vec<Option<String>>) -> (r:
    Result<bool, String>)
    ensures
        match count {
            Some(c) => r == Ok::<bool, String>(ticker_found(ticker@, c, display_symbols@)),
            None => fails_with(r, "Failed to find 'count' in response"@),
        },
{
    let value = match count {
        Some(v) => v,
        None => {
            return Err(String::from_str("Failed to find 'count' in response"));
        },
    };
    let wanted = String::from_str(ticker);
    let length = #[verifier::truncate] (value as i32);
    let mut i: i32 = 0;
    while i < length
        invariant
            0 <= i,
            count == Some(value),
            length == #[verifier::truncate] (value as i32),
            i <= length || length < 0,
            wanted@ == ticker@,
            forall|j: int|
                0 <= j < i && j < display_symbols.len() ==> !symbol_is(
                    #[trigger] display_symbols@[j],
                    ticker@,
                ),
        decreases length - i,
    {
        if (i as usize) < display_symbols.len() {
            match &display_symbols[i as usize] {
                Some(s) => {
                    if *s == wanted {
                        assert(symbol_is(display_symbols@[i as int], ticker@));
                        return Ok(true);
                    }
                },
                None => {},
            }
        }
        i = i + 1;
    }
    Ok(false)
}

/// The close price text of a day: the JSON text of its `4. close` value with
/// white space and then double quotes trimmed from both ends.
pub open spec fn close_text(json: Seq<char>) -> Seq<char> {
    trim_class(trim_class(json, false), true)
}

/// A line of price history: `date:close`.
pub open spec fn history_line(date: Seq<char>, close_json: Seq<char>) -> Seq<char> {
    date + seq![':'] + close_text(close_json)
}

/// The lines of daily price history from a history answer: for each day of
/// its `Time Series (Daily)` object, in order, the date and the JSON text of
/// the day's `4. close` value (where it has one).
pub fn historical_data_lines(series: Option<&Vec<(String, Option<String>)>>) -> (r: Result<
    Vec<String>,
    String,
>)
    ensures
        match series {
            None => fails_with(r, "Failed to find Time Series (Daily) in response "@),
            Some(days) => if exists|i: int| 0 <= i < days.len() && #[trigger] days@[i].1 is None {
                fails_with(r, "Failed to find 4. close in data "@)
            } else {
                lines_for(r, days@)
            },
        },
{
    let days = match series {
        Some(d) => d,
        None => {
            return Err(String::from_str("Failed to find Time Series (Daily) in response "));
        },
    };
    let mut stock_data_points: Vec<String> = Vec::new();
    let mut i: usize = 0;
    while i < days.len()
        invariant
            i <= days.len(),
            series == Some(days),
            stock_data_points.len() == i,
            forall|j: int| 0 <= j < i ==> #[trigger] days@[j].1 is Some,
            forall|j: int|
                0 <= j < i ==> #[trigger] stock_data_points@[j]@ == history_line(
                    days@[j].0@,
                    days@[j].1->0@,
                ),
        decreases days.len() - i,
    {
        let (date, close) = &days[i];
        let close_json = match close {
            Some(c) => c,
            None => {
                assert(days@[i as int].1 is None);
                return Err(String::from_str("Failed to find 4. close in data "));
            },
        };
        let mut line: Vec<char> = Vec::new();
        push_str(&mut line, date.as_str());
        line.push(':');
        let raw = chars_of(close_json.as_str());
        let trimmed = trim_chars(&raw, false);
        let unquoted = trim_chars(&trimmed, true);
        let ghost before = line@;
        let mut k: usize = 0;
        while k < unquoted.len()
            invariant
                k <= unquoted.len(),
                line@ == before + unquoted@.take(k as int),
            decreases unquoted.len() - k,
        {
            line.push(unquoted[k]);
            assert(unquoted@.take(k + 1) =~= unquoted@.take(k as int).push(unquoted@[k as int]));
            k = k + 1;
        }
        assert(unquoted@.take(unquoted.len() as int) =~= unquoted@);
        assert(line@ =~= history_line(date@, close_json@));
        stock_data_points.push(string_of(&line));
        i = i + 1;
    }
    Ok(stock_data_points)
}


/// A search answer lists a ticker exactly when one of its first `count`
/// results (`count` taken as an `i32`) has a display symbol equal to the
/// ticker; a symbol that only starts with the ticker (`BRK.A` for `BRK`)
/// does not count.
pub proof fn law_listed_means_exact_symbol(
    ticker: Seq<char>,
    count: i64,
    display_symbols: Seq<Option<String>>,
)
    ensures
        ticker_found(ticker, count, display_symbols) <==> exists|i: int|
            0 <= i < (count as i32) && i < display_symbols.len() && (
            #[trigger] display_symbols[i]) is Some && display_symbols[i]->0@ == ticker,
        forall|i: int|
            0 <= i < display_symbols.len() && (#[trigger] display_symbols[i]) is Some
                && display_symbols[i]->0@ != ticker ==> !symbol_is(display_symbols[i], ticker),
{
    if ticker_found(ticker, count, display_symbols) {
        let i = choose|i: int|
            0 <= i < (count as i32) && i < display_symbols.len() && symbol_is(
                #[trigger] display_symbols[i],
                ticker,
            );
        assert(display_symbols[i] is Some && display_symbols[i]->0@ == ticker);
    }
    if exists|i: int|
        0 <= i < (count as i32) && i < display_symbols.len() && (
        #[trigger] display_symbols[i]) is Some && display_symbols[i]->0@ == ticker {
        let i = choose|i: int|
            0 <= i < (count as i32) && i < display_symbols.len() && (
            #[trigger] display_symbols[i]) is Some && display_symbols[i]->0@ == ticker;
        assert(symbol_is(display_symbols[i], ticker));
    }
}

} // verus!

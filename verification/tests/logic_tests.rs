use trading_bot::algorithms::{
    algorithm_start_portfolio, close_gaining_trades, entry_shares, find_moving_average,
    moving_average_windows, price_line_valid, trade_open_for, trades_to_close, watched_tickers,
};
use trading_bot::api::{
    get_market_status, historical_data_lines, market_open_from_response, quote_price,
    ticker_listed,
};
use trading_bot::decimal::{parse_decimal, parse_i32, Decimal};
use trading_bot::portfolio_code::blank_portfolio;
use trading_bot::text::{split_field, split_first, split_lines};
use trading_bot::trade::{close_trade, open_trade, open_trade_with_id, trade_position, TradeOutcome};

fn whole(n: i64) -> Decimal {
    Decimal::from_units(n as i128 * 1_000_000)
}

#[test]
fn decimal_text_forms() {
    assert_eq!(whole(1000).to_text(), "1000");
    assert_eq!(Decimal::from_units(150_500_000).to_text(), "150.5");
    assert_eq!(Decimal::from_units(-250_000).to_text(), "-0.25");
    assert_eq!(Decimal::from_units(1).to_text(), "0.000001");
    assert_eq!(whole(-1).to_text(), "-1");
    assert_eq!(whole(0).to_text(), "0");
    assert_eq!(Decimal::from_units(i128::MIN).to_text(), "-170141183460469231731687303715884.105728");
    assert_eq!(Decimal::from_units(i128::MAX).to_text(), "170141183460469231731687303715884.105727");
}

#[test]
fn decimal_parsing() {
    assert_eq!(parse_decimal("1000"), Some(whole(1000)));
    assert_eq!(parse_decimal("150.5"), Some(Decimal::from_units(150_500_000)));
    assert_eq!(parse_decimal("-0.25"), Some(Decimal::from_units(-250_000)));
    assert_eq!(parse_decimal("+3"), Some(whole(3)));
    assert_eq!(parse_decimal("5."), Some(whole(5)));
    assert_eq!(parse_decimal(".5"), Some(Decimal::from_units(500_000)));
    assert_eq!(parse_decimal("1.23456789"), Some(Decimal::from_units(1_234_567)));
    assert_eq!(
        parse_decimal("-170141183460469231731687303715884.105728"),
        Some(Decimal::from_units(i128::MIN))
    );
    assert_eq!(parse_decimal("170141183460469231731687303715884.105728"), None);
    assert_eq!(parse_decimal("9223372036854.775808"), Some(Decimal::from_units(9_223_372_036_854_775_808)));
    assert_eq!(parse_decimal("."), None);
    assert_eq!(parse_decimal(""), None);
    assert_eq!(parse_decimal("-"), None);
    assert_eq!(parse_decimal("inf"), None);
    assert_eq!(parse_decimal("NaN"), None);
    assert_eq!(parse_decimal("1.2.3"), None);
    assert_eq!(parse_decimal(" 1"), None);
    assert_eq!(parse_decimal("99999999999999999999"), Some(Decimal::from_units(99_999_999_999_999_999_999_000_000)));
    assert_eq!(parse_decimal("999999999999999999999999999999999"), None);
}

#[test]
fn decimal_exponent_forms() {
    assert_eq!(parse_decimal("1e3"), Some(whole(1000)));
    assert_eq!(parse_decimal("1.2e2"), Some(whole(120)));
    assert_eq!(parse_decimal("1E-2"), Some(Decimal::from_units(10_000)));
    assert_eq!(parse_decimal("-2.5E-1"), Some(Decimal::from_units(-250_000)));
    assert_eq!(parse_decimal("+.5e1"), Some(whole(5)));
    assert_eq!(parse_decimal("1.e1"), Some(whole(10)));
    assert_eq!(parse_decimal("1e+2"), Some(whole(100)));
    assert_eq!(parse_decimal("1e-0"), Some(whole(1)));
    assert_eq!(parse_decimal("5e-7"), Some(whole(0)));
    assert_eq!(parse_decimal("12345678901234567890e-10"), Some(Decimal::from_units(1_234_567_890_123_456)));
    assert_eq!(parse_decimal("1e32"), Some(Decimal::from_units(100_000_000_000_000_000_000_000_000_000_000_000_000)));
    assert_eq!(parse_decimal("-1.7e32"), Some(Decimal::from_units(-170_000_000_000_000_000_000_000_000_000_000_000_000)));
    assert_eq!(parse_decimal("1e40"), None);
    assert_eq!(parse_decimal("0e99999999999999999999999999999999999999999"), Some(whole(0)));
    assert_eq!(parse_decimal("1e-99999999999999999999999999999999999999999"), Some(whole(0)));
    assert_eq!(parse_decimal("1e99999999999999999999999999999999999999999"), None);
    assert_eq!(parse_decimal("1e"), None);
    assert_eq!(parse_decimal("1e+"), None);
    assert_eq!(parse_decimal("e5"), None);
    assert_eq!(parse_decimal(".e1"), None);
    assert_eq!(parse_decimal("1e5x"), None);
    assert_eq!(parse_decimal("1e2.5"), None);
    assert_eq!(parse_decimal("1x"), None);
    assert_eq!(parse_decimal("1.5x"), None);
    assert_eq!(parse_decimal("1ee2"), None);
}

#[test]
fn decimal_text_reads_back() {
    for units in [0i128, 1, -1, 999_999, 1_000_000, 123_456_789, i128::MAX, i128::MIN, -42_000_001] {
        let d = Decimal::from_units(units);
        assert_eq!(parse_decimal(&d.to_text()), Some(d));
    }
}

#[test]
fn decimal_arithmetic() {
    assert_eq!(whole(2).checked_add(whole(3)), Some(whole(5)));
    assert_eq!(Decimal::from_units(i128::MAX).checked_add(Decimal::from_units(1)), None);
    assert_eq!(Decimal::from_units(i128::MIN).checked_sub(Decimal::from_units(1)), None);
    assert_eq!(whole(2).checked_sub(whole(3)), Some(whole(-1)));
    assert_eq!(Decimal::from_units(1_500_000).checked_mul(whole(3)), Some(Decimal::from_units(4_500_000)));
    assert_eq!(Decimal::from_units(-1).checked_mul(Decimal::from_units(500_000)), Some(Decimal::from_units(0)));
    assert_eq!(whole(1).checked_div(whole(3)), Some(Decimal::from_units(333_333)));
    assert_eq!(whole(-1).checked_div(whole(3)), Some(Decimal::from_units(-333_333)));
    assert_eq!(whole(1).checked_div(whole(0)), None);
    assert_eq!(Decimal::from_units(i128::MAX).checked_mul(whole(2)), None);
    assert_eq!(Decimal::from_units(i128::MIN).checked_mul(whole(1)), Some(Decimal::from_units(i128::MIN)));
    assert_eq!(Decimal::from_units(i128::MIN).checked_mul(whole(-1)), None);
    assert_eq!(whole(9_000_000_000_000).checked_mul(whole(-9_000_000_000_000)), Some(Decimal::from_units(-81_000_000_000_000_000_000_000_000_000_000)));
    assert_eq!(Decimal::from_units(i128::MAX).checked_div(whole(1)), Some(Decimal::from_units(i128::MAX)));
    assert_eq!(Decimal::from_units(i128::MAX).checked_div(Decimal::from_units(1)), None);
}

#[test]
fn whole_number_parsing() {
    assert_eq!(parse_i32("12"), Some(12));
    assert_eq!(parse_i32("-3"), Some(-3));
    assert_eq!(parse_i32("+4"), Some(4));
    assert_eq!(parse_i32("2147483647"), Some(i32::MAX));
    assert_eq!(parse_i32("-2147483648"), Some(i32::MIN));
    assert_eq!(parse_i32("2147483648"), None);
    assert_eq!(parse_i32("1.0"), None);
    assert_eq!(parse_i32(""), None);
    assert_eq!(parse_i32("-"), None);
}

#[test]
fn fields_and_lines() {
    assert_eq!(split_field("ticker:AAPL"), Some("AAPL".to_string()));
    assert_eq!(split_field("a:b:c"), Some("b".to_string()));
    assert_eq!(split_field("a:"), Some("".to_string()));
    assert_eq!(split_field("abc"), None);
    assert_eq!(split_first("2024-01-02:12.5"), "2024-01-02");
    assert_eq!(split_first("plain"), "plain");
    assert_eq!(split_lines("I love pizza\ncats and dogs"), vec!["I love pizza", "cats and dogs"]);
    assert_eq!(split_lines("a\r\nb\n"), vec!["a", "b"]);
    assert_eq!(split_lines("a\n\nb\r"), vec!["a", "", "b\r"]);
    assert!(split_lines("").is_empty());
    assert_eq!(split_lines("\n"), vec![""]);
}

fn trade(id: u128, ticker: &str, value: i64) -> trade_position {
    trade_position {
        uuid: id,
        ticker: ticker.to_string(),
        size: whole(1),
        open_price: whole(value),
        close_price: whole(-1),
        inital_value: whole(value),
    }
}

#[test]
fn opening_trades() {
    let mut p = blank_portfolio();
    p.cash_balance = whole(1000);
    let (p, outcome) = open_trade_with_id(p, "AMD", whole(2), Ok(whole(100)), 7);
    assert_eq!(outcome, TradeOutcome::Opened);
    assert_eq!(p.cash_balance, whole(800));
    assert_eq!(p.open_trades.len(), 1);
    let t = &p.open_trades[0];
    assert_eq!(t.uuid, 7);
    assert_eq!(t.ticker, "AMD");
    assert_eq!(t.size, whole(2));
    assert_eq!(t.open_price, whole(100));
    assert_eq!(t.close_price, whole(-1));
    assert_eq!(t.inital_value, whole(200));

    let (p, outcome) = open_trade_with_id(p, "AMD", whole(9), Ok(whole(100)), 8);
    assert_eq!(outcome, TradeOutcome::NotEnoughMoney);
    assert_eq!(p.cash_balance, whole(800));
    assert_eq!(p.open_trades.len(), 1);

    let (p, outcome) = open_trade_with_id(p, "AMD", whole(1), Err("no quote".to_string()), 9);
    assert_eq!(outcome, TradeOutcome::PriceUnavailable("no quote".to_string()));
    assert_eq!(p.open_trades.len(), 1);

    let (p, outcome) =
        open_trade_with_id(p, "AMD", Decimal::from_units(i128::MAX), Ok(whole(100)), 10);
    assert_eq!(outcome, TradeOutcome::OutOfRange);
    assert_eq!(p.cash_balance, whole(800));

    let (p, outcome) = open_trade_with_id(p, "AMD", whole(8), Ok(whole(100)), 11);
    assert_eq!(outcome, TradeOutcome::Opened);
    assert_eq!(p.cash_balance, whole(0));

    let (p, outcome) = open_trade(p, "NVDA", whole(-1), Ok(whole(50)));
    assert_eq!(outcome, TradeOutcome::Opened);
    assert_eq!(p.cash_balance, whole(50));
    assert_eq!(p.open_trades.len(), 3);
    let id = p.open_trades[2].uuid;
    assert_eq!(id & 0xf000_0000_0000_0000_0000u128, 0x4000_0000_0000_0000_0000u128);
    assert_eq!(id & 0xc000_0000_0000_0000u128, 0x8000_0000_0000_0000u128);
}

#[test]
fn opening_trades_past_a_trillion() {
    let mut p = blank_portfolio();
    p.cash_balance = whole(9_000_000_000_000);
    let (p, outcome) = open_trade_with_id(p, "AMD", whole(-9_000_000_000_000), Ok(whole(1)), 1);
    assert_eq!(outcome, TradeOutcome::Opened);
    assert_eq!(p.cash_balance, whole(18_000_000_000_000));
    assert_eq!(p.open_trades[0].inital_value, whole(-9_000_000_000_000));
}

#[test]
fn closing_trades() {
    let mut p = blank_portfolio();
    p.open_trades.push(trade(1, "A", 10));
    p.open_trades.push(trade(2, "B", 20));
    p.open_trades.push(trade(1, "C", 30));
    let (p, removed) = close_trade(p, 1);
    assert!(removed);
    assert_eq!(p.open_trades.len(), 2);
    assert_eq!(p.open_trades[0].ticker, "A");
    assert_eq!(p.open_trades[1].ticker, "B");
    let (p, removed) = close_trade(p, 5);
    assert!(!removed);
    assert_eq!(p.open_trades.len(), 2);
}

#[test]
fn close_after_open_restores_positions() {
    let mut p = blank_portfolio();
    p.cash_balance = whole(100);
    p.open_trades.push(trade(3, "A", 10));
    let (p, outcome) = open_trade_with_id(p, "B", whole(1), Ok(whole(40)), 3);
    assert_eq!(outcome, TradeOutcome::Opened);
    let (p, removed) = close_trade(p, 3);
    assert!(removed);
    assert_eq!(p.open_trades.len(), 1);
    assert_eq!(p.open_trades[0].ticker, "A");
    assert_eq!(p.cash_balance, whole(60));
}

#[test]
fn moving_averages() {
    let days = vec!["2024-01-01:10".to_string(), "2024-01-02:20".to_string(), "2024-01-03:40.5".to_string()];
    let (average, date) = find_moving_average(&days);
    assert_eq!(average, Some(Decimal::from_units(23_500_000)));
    assert_eq!(date, "2024-01-03");
    let (average, date) = find_moving_average(&Vec::new());
    assert_eq!(average, None);
    assert_eq!(date, "");
    assert!(price_line_valid("2024-01-01:10"));
    assert!(!price_line_valid("2024-01-01"));
    assert!(!price_line_valid("2024-01-01:x"));
    assert!(price_line_valid("2024-01-01:1.2e2"));
    let days = vec!["a:1.2e2".to_string(), "b:8E1".to_string()];
    assert_eq!(find_moving_average(&days).0, Some(whole(100)));
    let days = vec!["a:-0.000001".to_string(), "b:-0.000002".to_string()];
    assert_eq!(find_moving_average(&days).0, Some(Decimal::from_units(-1)));
    let days = vec!["a:-0.000003".to_string(), "b:0.000001".to_string()];
    assert_eq!(find_moving_average(&days).0, Some(Decimal::from_units(-1)));
    let top = "x:170141183460469231731687303715884.105727".to_string();
    assert_eq!(find_moving_average(&vec![top.clone(), top.clone(), top]).0, Some(Decimal::from_units(i128::MAX)));
    let bottom = "x:-170141183460469231731687303715884.105728".to_string();
    assert_eq!(find_moving_average(&vec![bottom.clone(), bottom]).0, Some(Decimal::from_units(i128::MIN)));
}

#[test]
fn moving_average_windows_over_history() {
    let lines: Vec<String> = (1..=60).map(|d| format!("day{}:{}", d, d)).collect();
    let (ten, fifty) = moving_average_windows(&lines);
    assert_eq!(ten.len(), 4);
    assert_eq!(fifty.len(), 4);
    assert_eq!(ten[0].date, "day60");
    assert_eq!(ten[0].average, Some(Decimal::from_units(55_500_000)));
    assert_eq!(ten[3].date, "day57");
    assert_eq!(ten[3].average, Some(Decimal::from_units(52_500_000)));
    assert_eq!(fifty[0].average, Some(Decimal::from_units(35_500_000)));
    assert_eq!(fifty[2].date, "day58");
    assert_eq!(fifty[2].average, Some(Decimal::from_units(33_500_000)));
}

#[test]
fn percentage_trigger_entries() {
    let p = algorithm_start_portfolio(blank_portfolio());
    assert_eq!(p.cash_balance, whole(1000));
    assert_eq!(entry_shares(&p, "AMD", whole(100), whole(103)), Some(whole(1)));
    assert_eq!(entry_shares(&p, "AMD", whole(100), whole(97)), Some(whole(-1)));
    assert_eq!(entry_shares(&p, "AMD", whole(100), whole(102)), None);
    assert_eq!(entry_shares(&p, "AMD", whole(0), whole(5)), None);
    let mut q = p;
    q.open_trades.push(trade(1, "AMD", 10));
    assert!(trade_open_for(&q, "AMD"));
    assert!(!trade_open_for(&q, "TSLA"));
    assert_eq!(entry_shares(&q, "AMD", whole(100), whole(110)), None);
    assert_eq!(entry_shares(&q, "TSLA", whole(100), whole(110)), Some(whole(1)));
    assert_eq!(entry_shares(&p_again(), "AMD", whole(50), whole(60)), Some(whole(1)));
    assert_eq!(entry_shares(&p_again(), "AMD", Decimal::from_units(100_000_000), Decimal::from_units(102_000_001)), Some(whole(1)));
}

fn p_again() -> trading_bot::portfolio_code::Portfolio {
    algorithm_start_portfolio(blank_portfolio())
}

#[test]
fn percentage_trigger_exits() {
    let mut p = blank_portfolio();
    p.open_trades.push(trade(1, "AMD", 10));
    p.open_trades.push(trade(2, "TSLA", 10));
    p.open_trades.push(trade(3, "AMD", 500));
    assert_eq!(trades_to_close(&p, "AMD", Decimal::from_units(11_000_001)), vec![1]);
    assert_eq!(trades_to_close(&p, "AMD", whole(11)), Vec::<u128>::new());
    assert_eq!(trades_to_close(&p, "AMD", whole(551)), vec![1, 3]);
    assert_eq!(trades_to_close(&p, "AMD", whole(2000)), vec![1, 3]);
    let p = close_gaining_trades(p, "AMD", whole(2000));
    assert_eq!(p.open_trades.len(), 1);
    assert_eq!(p.open_trades[0].uuid, 2);
    let mut q = blank_portfolio();
    q.open_trades.push(trade(4, "AMD", 100));
    assert_eq!(trades_to_close(&q, "AMD", whole(120)), vec![4]);
}

#[test]
fn exits_measure_the_gain_on_the_open_price() {
    let mut p = blank_portfolio();
    let mut two = trade(5, "AMD", 10);
    two.size = whole(2);
    two.inital_value = whole(20);
    p.open_trades.push(two);
    assert_eq!(trades_to_close(&p, "AMD", whole(12)), vec![5]);
    assert_eq!(trades_to_close(&p, "AMD", whole(11)), Vec::<u128>::new());
    let mut q = blank_portfolio();
    let mut hundred = trade(6, "NVDA", 200);
    hundred.size = whole(100);
    hundred.inital_value = whole(20000);
    q.open_trades.push(hundred);
    assert_eq!(trades_to_close(&q, "NVDA", whole(21500)), vec![6]);
    assert_eq!(trades_to_close(&q, "NVDA", whole(220)), Vec::<u128>::new());
    assert_eq!(trades_to_close(&q, "NVDA", Decimal::from_units(220_000_001)), vec![6]);
    let mut r = blank_portfolio();
    let mut short = trade(7, "F", 100);
    short.size = whole(-1);
    short.inital_value = whole(-100);
    r.open_trades.push(short);
    r.open_trades.push(trade(8, "F", 0));
    r.open_trades.push(trade(9, "F", -10));
    assert_eq!(trades_to_close(&r, "F", whole(111)), vec![7, 8]);
    assert_eq!(trades_to_close(&r, "F", whole(-12)), vec![9]);
    assert_eq!(trades_to_close(&r, "F", whole(-11)), Vec::<u128>::new());
    assert_eq!(trades_to_close(&r, "F", whole(0)), Vec::<u128>::new());
}

#[test]
fn a_tick_keeps_tickers_distinct() {
    let mut p = algorithm_start_portfolio(blank_portfolio());
    p.open_trades.push(trade(1, "AMD", 100));
    for (ticker, id) in [("AMD", 2u128), ("TSLA", 3u128), ("TSLA", 4u128)] {
        if let Some(shares) = entry_shares(&p, ticker, whole(100), whole(105)) {
            p = open_trade_with_id(p, ticker, shares, Ok(whole(105)), id).0;
        }
        p = close_gaining_trades(p, ticker, whole(105));
    }
    let tickers: Vec<&str> = p.open_trades.iter().map(|t| t.ticker.as_str()).collect();
    assert_eq!(tickers, vec!["AMD", "TSLA"]);
}

#[test]
fn one_share_entry_exits_on_its_open_price() {
    let p = algorithm_start_portfolio(blank_portfolio());
    let shares = entry_shares(&p, "AMD", whole(100), whole(103)).unwrap();
    let (p, outcome) = open_trade_with_id(p, "AMD", shares, Ok(whole(103)), 9);
    assert_eq!(outcome, TradeOutcome::Opened);
    assert_eq!(p.open_trades[0].inital_value, whole(103));
    assert_eq!(trades_to_close(&p, "AMD", whole(113)), Vec::<u128>::new());
    assert_eq!(trades_to_close(&p, "AMD", Decimal::from_units(113_310_000)), vec![9]);
}

#[test]
fn watch_list() {
    let tickers = watched_tickers();
    assert_eq!(tickers.len(), 30);
    assert_eq!(tickers[0], "PLTR");
    assert_eq!(tickers[29], "FGL");
}

#[test]
fn service_answers() {
    assert_eq!(quote_price(Some(whole(3))), Ok(whole(3)));
    assert_eq!(quote_price(None), Err("Missing or invalid 'c' field in response".to_string()));
    assert_eq!(market_open_from_response(Some(true)), Ok(true));
    assert_eq!(
        market_open_from_response(None),
        Err("Failed to find 'isOpen' in reponse".to_string())
    );
    assert_eq!(get_market_status(&Ok(true)), "open");
    assert_eq!(get_market_status(&Ok(false)), "closed");
    assert_eq!(
        get_market_status(&Err("x".to_string())),
        "An error occurred in fetching status of market"
    );
}

#[test]
fn ticker_search_answers() {
    let symbols = vec![Some("AAPL".to_string()), None, Some("AMD".to_string())];
    assert_eq!(ticker_listed("AMD", Some(3), &symbols), Ok(true));
    assert_eq!(ticker_listed("AMD", Some(2), &symbols), Ok(false));
    assert_eq!(ticker_listed("AMD", Some(10), &symbols), Ok(true));
    assert_eq!(ticker_listed("MSFT", Some(3), &symbols), Ok(false));
    assert_eq!(ticker_listed("AMD", Some(-1), &symbols), Ok(false));
    assert_eq!(ticker_listed("AMD", Some(1i64 << 32 | 3), &symbols), Ok(true));
    assert_eq!(ticker_listed("AMD", None, &symbols), Err("Failed to find 'count' in response".to_string()));
}

#[test]
fn history_answers() {
    let days = vec![
        ("2024-01-01".to_string(), Some("\"123.4500\"".to_string())),
        ("2024-01-02".to_string(), Some(" 99 ".to_string())),
    ];
    assert_eq!(
        historical_data_lines(Some(&days)),
        Ok(vec!["2024-01-01:123.4500".to_string(), "2024-01-02:99".to_string()])
    );
    let missing = vec![("2024-01-01".to_string(), None)];
    assert_eq!(
        historical_data_lines(Some(&missing)),
        Err("Failed to find 4. close in data ".to_string())
    );
    assert_eq!(
        historical_data_lines(None),
        Err("Failed to find Time Series (Daily) in response ".to_string())
    );
}

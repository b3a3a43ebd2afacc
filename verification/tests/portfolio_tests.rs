use std::collections::HashMap;
use trading_bot::decimal::Decimal;
use trading_bot::ids::{new_trade_id, parse_trade_id, trade_id_text};
use trading_bot::portfolio_code::{
    blank_portfolio, load_state_from_lines, percentage_change,
    save_file_listed, save_file_path, save_state_contents, trade_status, update_cash_balance,
    LoadOutcome, Portfolio,
};
use trading_bot::text::split_lines;
use trading_bot::trade::trade_position;

fn whole(n: i64) -> Decimal {
    Decimal::from_units(n as i128 * 1_000_000)
}

#[test]
fn creating_blank_portfolio() {
    let result = blank_portfolio();

    assert_eq!(
        result,
        Portfolio {
            cash_balance: whole(0),
            assets: HashMap::new(),
            open_trades: Vec::new(),
        }
    );
}

#[test]
fn test_updating_cash_balance() {
    let mut portfolio = blank_portfolio();
    assert_eq!(portfolio.cash_balance, whole(0), "Initial cash balance should be 0.0");

    portfolio = update_cash_balance(portfolio, whole(100));
    assert_eq!(portfolio.cash_balance, whole(100), "Cash balance should update to 100.0");

    portfolio = update_cash_balance(portfolio, whole(-200));
    assert_eq!(portfolio.cash_balance, whole(-100), "Cash balance should update to -100.0");

    portfolio = update_cash_balance(portfolio, whole(50));
    assert_eq!(portfolio.cash_balance, whole(-50), "Cash balance should update to -50.0");

    portfolio = update_cash_balance(portfolio, whole(150));
    assert_eq!(portfolio.cash_balance, whole(100), "Cash balance should update to 100.0");

    portfolio = update_cash_balance(portfolio, whole(-100));
    assert_eq!(portfolio.cash_balance, whole(0), "Cash balance should update back to 0.0");

    portfolio = update_cash_balance(portfolio, whole(500));
    assert_eq!(portfolio.cash_balance, whole(500), "Cash balance should update to 500.0");

    portfolio = update_cash_balance(portfolio, whole(-750));
    assert_eq!(portfolio.cash_balance, whole(-250), "Cash balance should update to -250.0");
}

fn sample_trade(id: u128) -> trade_position {
    trade_position {
        uuid: id,
        ticker: "AAPL".to_string(),
        size: whole(10),
        open_price: whole(150),
        close_price: whole(155),
        inital_value: whole(1500),
    }
}

#[test]
fn test_save_state() {
    let trade = sample_trade(new_trade_id());

    let mut portfolio = blank_portfolio();
    portfolio.open_trades.push(trade);
    portfolio.cash_balance = whole(1000);

    let file_content = save_state_contents(&portfolio);

    assert!(file_content.contains("version:1.0"));
    assert!(file_content.contains("cash_balance:1000"));
    assert!(file_content.contains("number_of_open_trades:1"));
    assert!(file_content.contains("open_trade:0"));
    assert!(file_content.contains("uuid:"));
    assert!(file_content.contains("ticker:AAPL"));
    assert!(file_content.contains("size:10"));
    assert!(file_content.contains("open_price:150"));
    assert!(file_content.contains("close_price:155"));
    assert!(file_content.contains("inital_value:1500"));
}

#[test]
fn save_file_has_exact_layout() {
    let id = 0x67e5_5044_10b1_426f_9247_bb68_0e5f_e0c8u128;
    let mut portfolio = blank_portfolio();
    portfolio.open_trades.push(sample_trade(id));
    portfolio.cash_balance = Decimal::from_units(-1_250_000);
    let text = save_state_contents(&portfolio);
    assert_eq!(
        text,
        "version:1.0\ncash_balance:-1.25\nnumber_of_open_trades:1\nopen_trade:0\n\
         uuid:67e55044-10b1-426f-9247-bb680e5fe0c8\nticker:AAPL\nsize:10\nopen_price:150\n\
         close_price:155\ninital_value:1500"
    );
}

#[test]
fn empty_portfolio_save_file() {
    let text = save_state_contents(&blank_portfolio());
    assert_eq!(text, "version:1.0\ncash_balance:0\nnumber_of_open_trades:0");
}

#[test]
fn save_then_load_gives_back_the_portfolio() {
    let mut portfolio = blank_portfolio();
    portfolio.cash_balance = Decimal::from_units(123_456_789);
    portfolio.open_trades.push(sample_trade(new_trade_id()));
    let mut second = sample_trade(new_trade_id());
    second.ticker = "TSLA".to_string();
    second.size = Decimal::from_units(-666_666);
    second.close_price = Decimal::from_units(-1_000_000);
    portfolio.open_trades.push(second);
    let text = save_state_contents(&portfolio);
    let lines = split_lines(&text);
    match load_state_from_lines(blank_portfolio(), &lines) {
        LoadOutcome::Loaded(p) => assert_eq!(p, portfolio),
        other => panic!("unexpected outcome: {:?}", other),
    }
}

#[test]
fn loading_appends_to_open_trades() {
    let mut saved = blank_portfolio();
    saved.cash_balance = whole(7);
    saved.open_trades.push(sample_trade(1));
    let lines = split_lines(&save_state_contents(&saved));
    let mut current = blank_portfolio();
    current.cash_balance = whole(99);
    current.open_trades.push(sample_trade(2));
    match load_state_from_lines(current, &lines) {
        LoadOutcome::Loaded(p) => {
            assert_eq!(p.cash_balance, whole(7));
            assert_eq!(p.open_trades.len(), 2);
            assert_eq!(p.open_trades[0].uuid, 2);
            assert_eq!(p.open_trades[1].uuid, 1);
        }
        other => panic!("unexpected outcome: {:?}", other),
    }
}

fn lines_of(text: &str) -> Vec<String> {
    split_lines(text)
}

fn failed_with(outcome: LoadOutcome, message: &str) {
    match outcome {
        LoadOutcome::Failed(m) => assert_eq!(m, message),
        other => panic!("unexpected outcome: {:?}", other),
    }
}

#[test]
fn load_rejects_other_versions() {
    failed_with(
        load_state_from_lines(blank_portfolio(), &lines_of("version:2.0\ncash_balance:1")),
        "not version 1.0",
    );
}

#[test]
fn load_rejects_bad_cash() {
    failed_with(
        load_state_from_lines(blank_portfolio(), &lines_of("version:1.0\ncash_balance:abc")),
        "Failed to convert to f32",
    );
}

#[test]
fn load_rejects_bad_count() {
    failed_with(
        load_state_from_lines(
            blank_portfolio(),
            &lines_of("version:1.0\ncash_balance:1\nnumber_of_open_trades:x"),
        ),
        "Failed convert number of trades to i32",
    );
}

#[test]
fn load_rejects_bad_uuid() {
    failed_with(
        load_state_from_lines(
            blank_portfolio(),
            &lines_of(
                "version:1.0\ncash_balance:1\nnumber_of_open_trades:1\nopen_trade:0\nuuid:nope\n\
                 ticker:A\nsize:1\nopen_price:1\nclose_price:1\ninital_value:1",
            ),
        ),
        "Failed to parse UUID",
    );
}

#[test]
fn load_rejects_bad_trade_amount() {
    failed_with(
        load_state_from_lines(
            blank_portfolio(),
            &lines_of(
                "version:1.0\ncash_balance:1\nnumber_of_open_trades:1\nopen_trade:0\n\
                 uuid:67e55044-10b1-426f-9247-bb680e5fe0c8\nticker:A\nsize:ten\nopen_price:1\n\
                 close_price:1\ninital_value:1",
            ),
        ),
        "Failed to convert to f32",
    );
}

#[test]
fn load_of_short_file_is_truncated() {
    let outcome = load_state_from_lines(
        blank_portfolio(),
        &lines_of("version:1.0\ncash_balance:1\nnumber_of_open_trades:2"),
    );
    assert!(matches!(outcome, LoadOutcome::Truncated));
    let outcome = load_state_from_lines(blank_portfolio(), &lines_of(""));
    assert!(matches!(outcome, LoadOutcome::Truncated));
    let outcome = load_state_from_lines(blank_portfolio(), &lines_of("version:1.0\ncash 1"));
    assert!(matches!(outcome, LoadOutcome::Truncated));
}

#[test]
fn load_with_negative_count_reads_no_trades() {
    match load_state_from_lines(
        blank_portfolio(),
        &lines_of("version:1.0\ncash_balance:2.5\nnumber_of_open_trades:-3"),
    ) {
        LoadOutcome::Loaded(p) => {
            assert_eq!(p.cash_balance, Decimal::from_units(2_500_000));
            assert!(p.open_trades.is_empty());
        }
        other => panic!("unexpected outcome: {:?}", other),
    }
}

#[test]
fn save_path_and_listing() {
    assert_eq!(save_file_path("test_save"), "./save_states/test_save.txt");
    let files = vec!["a.txt".to_string(), "test_save.txt".to_string()];
    assert!(save_file_listed("test_save", &files));
    assert!(!save_file_listed("test", &files));
    assert!(!save_file_listed("a.txt", &files));
}

#[test]
fn cash_update_range() {
    let mut p = blank_portfolio();
    p.cash_balance = Decimal::from_units(i128::MAX - 5);
    let kept = update_cash_balance(p, Decimal::from_units(6));
    assert_eq!(kept.cash_balance, Decimal::from_units(i128::MAX - 5));
    let beyond_old_range = update_cash_balance(kept, Decimal::from_units(i128::MIN));
    assert_eq!(beyond_old_range.cash_balance, Decimal::from_units(-6));
    let mut top = blank_portfolio();
    top.cash_balance = Decimal::from_units(i128::MAX - 5);
    let top = update_cash_balance(top, Decimal::from_units(5));
    assert_eq!(top.cash_balance, Decimal::from_units(i128::MAX));
}

#[test]
fn cash_updates_past_a_trillion() {
    let mut p = blank_portfolio();
    p.cash_balance = whole(9_000_000_000_000);
    let p = update_cash_balance(p, whole(9_000_000_000_000));
    assert_eq!(p.cash_balance, whole(18_000_000_000_000));
}

#[test]
fn cash_updates_cancel() {
    let mut p = blank_portfolio();
    p = update_cash_balance(p, Decimal::from_units(12_340_000));
    p = update_cash_balance(p, Decimal::from_units(-12_340_000));
    assert_eq!(p, blank_portfolio());
}

#[test]
fn percentage_and_status() {
    assert_eq!(percentage_change(whole(110), whole(100)), Some(whole(10)));
    assert_eq!(percentage_change(whole(90), whole(100)), Some(whole(-10)));
    assert_eq!(percentage_change(whole(1), whole(0)), None);
    assert_eq!(
        percentage_change(Decimal::from_units(1_000_000), Decimal::from_units(3_000_000)),
        Some(Decimal::from_units(-66_666_666))
    );
    let t = sample_trade(1);
    let s = trade_status(&t, whole(160));
    assert_eq!(s.profit_or_loss, Some(whole(10)));
    assert_eq!(s.percentage, Some(Decimal::from_units(6_666_666)));
    assert_eq!(s.total_value, Some(whole(1600)));
    assert_eq!(
        percentage_change(Decimal::from_units(102_000_040), whole(100)),
        Some(Decimal::from_units(2_000_040))
    );
    let mut far = sample_trade(2);
    far.open_price = whole(-9_000_000_000_000);
    let s = trade_status(&far, whole(9_000_000_000_000));
    assert_eq!(s.profit_or_loss, Some(whole(18_000_000_000_000)));
    assert_eq!(s.percentage, Some(whole(-200)));
    assert_eq!(
        percentage_change(Decimal::from_units(i128::MAX), Decimal::from_units(i128::MIN)),
        Some(Decimal::from_units(-199_999_999))
    );
}

#[test]
fn trade_ids_read_back() {
    let id = 0x0123_4567_89ab_cdef_0011_2233_4455_6677u128;
    let text = trade_id_text(id);
    assert_eq!(text, "01234567-89ab-cdef-0011-223344556677");
    assert_eq!(parse_trade_id(&text), Some(id));
    assert_eq!(parse_trade_id("0123456789ABCDEF0011223344556677"), Some(id));
    assert_eq!(parse_trade_id("not an id"), None);
    assert_ne!(new_trade_id(), new_trade_id());
}

#[test]
fn new_trade_ids_are_version_4() {
    for _ in 0..8 {
        let id = new_trade_id();
        assert_eq!(id & 0xf000_0000_0000_0000_0000u128, 0x4000_0000_0000_0000_0000u128);
        assert_eq!(id & 0xc000_0000_0000_0000u128, 0x8000_0000_0000_0000u128);
    }
}

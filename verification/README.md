# trading_bot

A stock-trading portfolio kept from a text menu: cash, open trades, save
files, market-data lookups and two trading algorithms.

- `src/` is the library, verified with Verus:
  - `decimal.rs`: signed decimals with six fractional digits (cash, shares,
    prices), their arithmetic, text and parsing, and the proof that the text
    of a decimal reads back as the same decimal.
  - `text.rs`: digits, `:`-separated fields, line splitting and trimming.
  - `ids.rs`: trade identifiers and their UUID text (through the `uuid` crate).
  - `trade.rs`: opening and closing trades.
  - `portfolio_code.rs`: the portfolio, cash updates, trade reports, and the
    save-file format, with the proof that loading a saved portfolio gives it
    back.
  - `algorithms.rs`: moving averages of price history and the decisions of
    the percentage-change trigger.
  - `api.rs`: what the market-data services' answers mean.
- `app/` is the program around it: the menu, HTTP requests, files, logging,
  the database connection and the algorithms' loops.
- `tests/` runs the library on concrete values.

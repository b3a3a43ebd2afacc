//! Open trades: opening one at a looked-up price, and closing one by its
//! identifier.

use vstd::prelude::*;
use crate::decimal::{in_range, product_units, quot, Decimal};
use crate::ids::{is_random_uuid, new_trade_id};
use crate::portfolio_code::{Portfolio, PortfolioView};

verus! {

broadcast use vstd::string::group_string_axioms;

/// A position held in the portfolio.
#[allow(non_camel_case_types)]
#[derive(Debug, PartialEq)]
pub struct trade_position {
    pub uuid: u128,
    pub ticker: String,
    pub size: Decimal,
    pub open_price: Decimal,
    pub close_price: Decimal,
    pub inital_value: Decimal,
}

/// What a trade position holds, as plain values.
pub struct TradeView {
    pub uuid: u128,
    pub ticker: Seq<char>,
    pub size: int,
    pub open_price: int,
    pub close_price: int,
    pub inital_value: int,
}

impl View for trade_position {
    type V = TradeView;

    open spec fn view(&self) -> TradeView {
        TradeView {
            uuid: self.uuid,
            ticker: self.ticker@,
            size: self.size@,
            open_price: self.open_price@,
            close_price: self.close_price@,
            inital_value: self.inital_value@,
        }
    }
}

/// What became of a request to open a trade.
#[derive(Debug, PartialEq)]
pub enum TradeOutcome {
    /// The trade was opened.
    Opened,
    /// The price could not be looked up; the lookup's error.
    PriceUnavailable(String),
    /// The trade costs more than the cash balance.
    NotEnoughMoney,
    /// The cost or the new balance does not fit a decimal.
    OutOfRange,
}

/// The close price that a trade opens with: minus one.
pub open spec fn unset_close_price() -> int {
    -1_000_000
}

/// What a trade of `shares` shares at `price` costs.
pub open spec fn trade_cost(price: int, shares: int) -> int {
    product_units(price, shares)
}

/// Whether a trade of that cost can be opened on the portfolio: the cost is
/// no more than the cash balance, and cost and new balance are in range.
pub open spec fn affordable(p: PortfolioView, cost: int) -> bool {
    &&& in_range(cost)
    &&& cost <= p.cash
    &&& in_range(p.cash - cost)
}

/// The portfolio after opening the trade: the cost leaves the cash balance
/// and the new position is added last.
pub open spec fn opened(
    p: PortfolioView,
    ticker: Seq<char>,
    shares: int,
    price: int,
    id: u128,
) -> PortfolioView {
    let cost = trade_cost(price, shares);
    PortfolioView {
        cash: p.cash - cost,
        trades: p.trades.push(
            TradeView {
                uuid: id,
                ticker: ticker,
                size: shares,
                open_price: price,
                close_price: unset_close_price(),
                inital_value: cost,
            },
        ),
    }
}

/// Opens a trade of `amount_of_shares` shares of `ticker` at the looked-up
/// price, under identifier `id`. Where the lookup failed, the trade costs
/// more than the cash balance, or the amounts leave the decimal range, the
/// portfolio stays as it was and the outcome says why.
pub fn open_trade_with_id(
    portfolio: Portfolio,
    ticker: &str,
    amount_of_shares: Decimal,
    price_lookup: Result<Decimal, String>,
    id: u128,
) -> (res: (Portfolio, TradeOutcome))
    ensures
        res.0.assets@ == portfolio.assets@,
        match price_lookup {
            Err(e) => res.0@ == portfolio@ && res.1 == TradeOutcome::PriceUnavailable(e),
            Ok(price) => {
                let cost = trade_cost(price@, amount_of_shares@);
                if affordable(portfolio@, cost) {
                    res.0@ == opened(portfolio@, ticker@, amount_of_shares@, price@, id) && res.1
                        == TradeOutcome::Opened
                } else {
                    &&& res.0@ == portfolio@
                    &&& res.1 == (if in_range(cost) && cost > portfolio@.cash {
                        TradeOutcome::NotEnoughMoney
                    } else {
                        TradeOutcome::OutOfRange
                    })
                }
            },
        },
{
    let ghost orig = portfolio@;
    let mut portfolio = portfolio;
    let price_per_share = match price_lookup {
        Ok(price) => price,
        Err(e) => {
            return (portfolio, TradeOutcome::PriceUnavailable(e));
        },
    };
    let total_value = match price_per_share.checked_mul(amount_of_shares) {
        Some(t) => t,
        None => {
            return (portfolio, TradeOutcome::OutOfRange);
        },
    };
    if total_value.units > portfolio.cash_balance.units {
        return (portfolio, TradeOutcome::NotEnoughMoney);
    }
    let new_cash = match portfolio.cash_balance.checked_sub(total_value) {
        Some(c) => c,
        None => {
            return (portfolio, TradeOutcome::OutOfRange);
        },
    };
    let temp = trade_position {
        uuid: id,
        ticker: String::from_str(ticker),
        size: amount_of_shares,
        open_price: price_per_share,
        close_price: Decimal::from_units(-1_000_000),
        inital_value: total_value,
    };
    let ghost old_trades = portfolio.open_trades@;
    portfolio.open_trades.push(temp);
    portfolio.cash_balance = new_cash;
    assert(portfolio@.trades =~= opened(orig, ticker@, amount_of_shares@, price_per_share@, id).trades) by {
        assert(portfolio.open_trades@ == old_trades.push(temp));
    }
    (portfolio, TradeOutcome::Opened)
}

/// Opens a trade under a fresh random version-4 identifier (see
/// `open_trade_with_id`), by which the trade is later found and closed.
pub fn open_trade(
    portfolio: Portfolio,
    ticker: &str,
    amount_of_shares: Decimal,
    price_lookup: Result<Decimal, String>,
) -> (res: (Portfolio, TradeOutcome))
    ensures
        res.0.assets@ == portfolio.assets@,
        match price_lookup {
            Err(e) => res.0@ == portfolio@ && res.1 == TradeOutcome::PriceUnavailable(e),
            Ok(price) => {
                let cost = trade_cost(price@, amount_of_shares@);
                if affordable(portfolio@, cost) {
                    res.0@ == opened(
                        portfolio@,
                        ticker@,
                        amount_of_shares@,
                        price@,
                        res.0@.trades.last().uuid,
                    ) && res.1 == TradeOutcome::Opened && is_random_uuid(res.0@.trades.last().uuid)
                } else {
                    &&& res.0@ == portfolio@
                    &&& res.1 == (if in_range(cost) && cost > portfolio@.cash {
                        TradeOutcome::NotEnoughMoney
                    } else {
                        TradeOutcome::OutOfRange
                    })
                }
            },
        },
{
    let id = new_trade_id();
    open_trade_with_id(portfolio, ticker, amount_of_shares, price_lookup, id)
}

/// Index of the last trade with identifier `id`.
pub open spec fn last_index_of(trades: Seq<TradeView>, id: u128) -> Option<int>
    decreases trades.len(),
{
    if trades.len() == 0 {
        None
    } else if trades.last().uuid == id {
        Some(trades.len() - 1)
    } else {
        last_index_of(trades.drop_last(), id)
    }
}

/// The index that stands for "no match" while searching: a match found there
/// is treated as no match.
pub open spec fn no_match_index() -> int {
    1_000_000
}

/// The index of the trade that `close_trade` removes, if any: the last one
/// with the identifier, unless that index is the "no match" index.
pub open spec fn index_to_close(trades: Seq<TradeView>, id: u128) -> Option<int> {
    match last_index_of(trades, id) {
        Some(k) => if k == no_match_index() {
            None
        } else {
            Some(k)
        },
        None => None,
    }
}

/// The portfolio after closing trade `id`.
pub open spec fn closed(p: PortfolioView, id: u128) -> PortfolioView {
    match index_to_close(p.trades, id) {
        Some(k) => PortfolioView { cash: p.cash, trades: p.trades.remove(k) },
        None => p,
    }
}

/// The last trade with an identifier is where it is found, and none after it
/// has it.
pub proof fn lemma_last_index_of(trades: Seq<TradeView>, id: u128)
    ensures
        match last_index_of(trades, id) {
            Some(k) => 0 <= k < trades.len() && trades[k].uuid == id && forall|j: int|
                k < j < trades.len() ==> trades[j].uuid != id,
            None => forall|j: int| 0 <= j < trades.len() ==> trades[j].uuid != id,
        },
    decreases trades.len(),
{
    if trades.len() > 0 && trades.last().uuid != id {
        lemma_last_index_of(trades.drop_last(), id);
        assert forall|j: int| 0 <= j < trades.len() - 1 implies trades[j] == trades.drop_last()[j] by {
        }
    }
}

/// The last match is determined by the trades after it.
proof fn lemma_last_index_of_is(trades: Seq<TradeView>, id: u128, k: int)
    requires
        -1 <= k < trades.len(),
        k >= 0 ==> trades[k].uuid == id,
        forall|j: int| k < j < trades.len() ==> trades[j].uuid != id,
    ensures
        last_index_of(trades, id) == (if k >= 0 {
            Some(k)
        } else {
            None::<int>
        }),
    decreases trades.len(),
{
    if trades.len() > 0 && trades.last().uuid != id {
        let t = trades.drop_last();
        assert forall|j: int| k < j < t.len() implies t[j].uuid != id by {
            assert(t[j] == trades[j]);
        }
        lemma_last_index_of_is(t, id, k);
    }
}

/// Closes the open trade with identifier `trade_uuid`: the last one with that
/// identifier leaves the portfolio, unless it stands at the "no match" index.
/// The cash balance does not change. The flag tells whether a trade left.
pub fn close_trade(portfolio: Portfolio, trade_uuid: u128) -> (res: (Portfolio, bool))
    ensures
        res.0@ == closed(portfolio@, trade_uuid),
        res.0.assets@ == portfolio.assets@,
        res.1 == index_to_close(portfolio@.trades, trade_uuid) is Some,
{
    let mut portfolio = portfolio;
    let ghost trades = portfolio@.trades;
    let mut index_to_remove: usize = 1000000;
    let mut found: bool = false;
    let n = portfolio.open_trades.len();
    for i in 0..n
        invariant
            n == portfolio.open_trades.len(),
            trades == portfolio@.trades,
            found ==> 0 <= index_to_remove < i && trades[index_to_remove as int].uuid == trade_uuid,
            !found ==> index_to_remove == 1000000,
            forall|j: int|
                (if found {
                    index_to_remove as int
                } else {
                    -1
                }) < j < i ==> trades[j].uuid != trade_uuid,
    {
        if portfolio.open_trades[i].uuid == trade_uuid {
            index_to_remove = i;
            found = true;
        }
    }
    proof {
        lemma_last_index_of_is(
            trades,
            trade_uuid,
            if found {
                index_to_remove as int
            } else {
                -1
            },
        );
    }
    if index_to_remove == 1000000 {
        (portfolio, false)
    } else {
        let ghost before = portfolio.open_trades@;
        portfolio.open_trades.remove(index_to_remove);
        assert(portfolio@.trades =~= trades.remove(index_to_remove as int));
        (portfolio, true)
    }
}

/// Closing a just opened trade by its identifier takes the portfolio's
/// positions back to what they were before the trade was opened (while fewer
/// than a million positions were open); the cost stays spent.
pub proof fn law_close_undoes_open(
    p: PortfolioView,
    ticker: Seq<char>,
    shares: int,
    price: int,
    id: u128,
)
    requires
        p.trades.len() < no_match_index(),
    ensures
        closed(opened(p, ticker, shares, price, id), id).trades == p.trades,
        closed(opened(p, ticker, shares, price, id), id).cash == p.cash - trade_cost(price, shares),
{
    let q = opened(p, ticker, shares, price, id);
    lemma_last_index_of_is(q.trades, id, p.trades.len() as int);
    assert(q.trades.remove(p.trades.len() as int) =~= p.trades);
}

/// An opened trade never takes the cash balance below zero, and what it
/// costs is what leaves the cash balance.
pub proof fn law_open_keeps_cash(
    p: PortfolioView,
    ticker: Seq<char>,
    shares: int,
    price: int,
    id: u128,
)
    requires
        affordable(p, trade_cost(price, shares)),
    ensures
        opened(p, ticker, shares, price, id).cash >= 0,
        opened(p, ticker, shares, price, id).cash + opened(p, ticker, shares, price, id).trades.last().inital_value
            == p.cash,
{
}


/// Opening a trade adds one position, last, holding exactly what was asked
/// for: the ticker, the number of shares, the price, the "unset" close price
/// of minus one, and as initial value the shares times the price truncated
/// to millionths; the positions before it stay.
pub proof fn law_open_records_the_order(
    p: PortfolioView,
    ticker: Seq<char>,
    shares: int,
    price: int,
    id: u128,
)
    ensures
        ({
            let q = opened(p, ticker, shares, price, id);
            &&& q.trades.len() == p.trades.len() + 1
            &&& q.trades.take(p.trades.len() as int) == p.trades
            &&& q.trades.last().uuid == id
            &&& q.trades.last().ticker == ticker
            &&& q.trades.last().size == shares
            &&& q.trades.last().open_price == price
            &&& q.trades.last().close_price == -1_000_000
            &&& q.trades.last().inital_value == quot(price * shares, 1_000_000)
            &&& q.cash == p.cash - q.trades.last().inital_value
        }),
{
    let q = opened(p, ticker, shares, price, id);
    assert(q.trades.take(p.trades.len() as int) =~= p.trades);
}

} // verus!

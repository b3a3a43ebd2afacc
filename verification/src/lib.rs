//! A stock-trading portfolio: fixed-point amounts, trades, the save-file
//! format, and the decisions of the trading algorithms.

pub mod text;
pub mod decimal;
pub mod ids;
pub mod trade;
pub mod portfolio_code;
pub mod algorithms;
pub mod api;

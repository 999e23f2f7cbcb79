//! The values the client works with: tickers, commands and quotes.

pub mod command;
pub mod quote;
pub mod tickers;

//! Order execution and trade statistics for a backtesting engine, with
//! machine-checked contracts.
pub mod num;
pub mod utils;
pub mod types;
pub mod rules;
pub mod book;
pub mod state;
pub mod execution;
pub mod cell;
pub mod statistics;
pub mod buffer;

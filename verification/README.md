# bc_trade

Order execution and trade statistics for a backtesting engine, verified with
Verus.

Prices, quantities and capital are IEEE-754 binary64 values. The library
(`src/`) holds each of them as its bit pattern (`num::Num`) and proves every
decision it takes on them: ordering as IEEE-754 orders, normal numbers, NaN as
"nothing to show", exact conversion of indices. Binary64 arithmetic itself
(capital and position accounting, profit) lives in `app/`, which hands its
results to the library.

- `num` – binary64 values as bit patterns, their order, exact whole numbers.
- `utils` – the price a candle offers for a price type; crossing tests.
- `rules` – when an order is due, when the capital covers it.
- `types` – orders, triggers, positions, capital, the refusal error.
- `book` – name-keyed lists of pending items.
- `state` – the account: placing orders, firing triggers, clearing what is
  done.
- `execution` – executing the due orders in one pass (`TradeState::execute`),
  with the binary64 pricing of each order handed in by the caller; the same
  pass can be driven step by step (`execute_next`, `execute_settle`).
- `cell`, `statistics` – per-candle snapshots and the statistics columns.
- `buffer` – the sliding window of candles.

`app/` holds the binary64 accounting (`accounting.rs`), the conversions
between `f64` and `Num` (`float.rs`), the pass with that accounting plugged in
(`execute.rs`) and the error report with its message (`errors.rs`). An order
on an existing position is charged twice there: once by `modify` and once by
the capital bookkeeping of `insert`, which runs whether or not a position is
opened.

## What is not here

- The backtest driver (`backtest`, `backtest_multi`), the indicator, signal
  and order-collector gateways (`GWValues`, `TradeData`, `AfterTradeData`)
  and the per-candle order router (`TradeCell::step`) consist of calls into
  the `bc_indicators`, `bc_signals`, `bc_orders_collectors` and `bc_utils_lg`
  families of crates and into position helpers (`modify_positions`,
  `modify_positions_or_not`) whose sources are not available, so they are not
  part of this crate.
- The profit column of the statistics (`to_pnl`) rests on a profit formula
  (`qty_pnl`) whose source is not available either; `StatCollector::to_data`
  takes that column from its caller.

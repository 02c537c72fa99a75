//! Columns of statistics over the candles of a backtest.
//!
//! Every column has one value per candle; NaN marks a candle where the column
//! has nothing to show. Most columns show the open price of the candle at the
//! moments where something happened.
use vstd::prelude::*;

use crate::cell::{IsActive, TradeCell};
use crate::book::{book, Book};
use crate::num::{whole_bits, Num, EXACT_WHOLE_LIMIT, NAN_BITS};
use crate::types::{Order, Position};

verus! {

/// The NaN that marks "nothing to show".
pub open spec fn nan() -> Num {
    Num(NAN_BITS)
}

/// The first value of `a`, `b` when both are normal numbers, else NaN.
pub open spec fn both(a: Num, b: Num) -> Num {
    if a.normal() && b.normal() {
        a
    } else {
        nan()
    }
}

/// The first of `a`, `b` that is a normal number, else NaN.
pub open spec fn either(a: Num, b: Num) -> Num {
    if a.normal() {
        a
    } else if b.normal() {
        b
    } else {
        nan()
    }
}

/// The rows of a table as sequences.
pub open spec fn rows(values: Seq<Vec<Num>>) -> Seq<Seq<Num>> {
    values.map_values(|v: Vec<Num>| v@)
}

/// Column `i` of the table, from row `j` on.
pub open spec fn column_from(t: Seq<Seq<Num>>, i: int, j: int) -> Seq<Num> {
    Seq::new((t.len() - j) as nat, |x: int| t[j + x][i])
}

/// The first normal number of `s`, else NaN.
pub open spec fn first_normal(s: Seq<Num>) -> Num
    decreases s.len(),
{
    if s.len() == 0 {
        nan()
    } else if s[0].normal() {
        s[0]
    } else {
        first_normal(s.drop_first())
    }
}

/// The rows above row `j` all hold normal numbers in column `i`.
pub open spec fn normal_above(t: Seq<Seq<Num>>, i: int, j: int) -> bool {
    forall|y: int| 0 <= y < j ==> (#[trigger] t[y][i]).normal()
}

/// The rows above row `j` hold no normal number in column `i`.
pub open spec fn abnormal_above(t: Seq<Seq<Num>>, i: int, j: int) -> bool {
    forall|y: int| 0 <= y < j ==> !(#[trigger] t[y][i]).normal()
}

/// What [`StatCollector::to_all`] reads: every row is long enough wherever
/// all rows above it hold normal numbers in that column.
pub open spec fn all_readable(t: Seq<Seq<Num>>) -> bool {
    &&& t.len() > 0
    &&& forall|i: int, j: int|
        0 <= i < t[0].len() && 0 <= j < t.len() && #[trigger] normal_above(t, i, j) ==> i
            < t[j].len()
}

/// What [`StatCollector::to_any`] reads: every row is long enough wherever
/// all rows above it hold no normal number in that column.
pub open spec fn any_readable(t: Seq<Seq<Num>>) -> bool {
    &&& t.len() > 0
    &&& forall|i: int, j: int|
        0 <= i < t[0].len() && 0 <= j < t.len() && #[trigger] abnormal_above(t, i, j) ==> i
            < t[j].len()
}

/// Which records of a candle [`StatCollector::to_some`] looks at.
#[derive(Clone, Copy, PartialEq, Eq, Debug, Structural)]
pub enum CellBook {
    TriggerOrders,
    LimitOrders,
    MarketOrders,
    Positions,
}

/// Which number of a position [`StatCollector::to_value_positions`] shows.
#[derive(Clone, Copy, PartialEq, Eq, Debug, Structural)]
pub enum PositionValue {
    Qty,
    Leverage,
    AvgOpenPrice,
    PnlQty,
    PnlPercent,
}

pub open spec fn orders_any_active(s: Seq<(String, Order)>) -> bool {
    exists|i: int| 0 <= i < s.len() && s[i].1.is_active
}

pub open spec fn orders_any_inactive(s: Seq<(String, Order)>) -> bool {
    exists|i: int| 0 <= i < s.len() && !s[i].1.is_active
}

pub open spec fn positions_any_active(s: Seq<(String, Position)>) -> bool {
    exists|i: int| 0 <= i < s.len() && s[i].1.is_active
}

pub open spec fn positions_any_inactive(s: Seq<(String, Position)>) -> bool {
    exists|i: int| 0 <= i < s.len() && !s[i].1.is_active
}

/// The records that `which` names hold something (`include_inactive` false)
/// or something active (`include_inactive` true).
pub open spec fn marked(c: TradeCell, which: CellBook, include_inactive: bool) -> bool {
    match which {
        CellBook::TriggerOrders => if include_inactive {
            orders_any_active(c.trigger_orders@)
        } else {
            c.trigger_orders@.len() > 0
        },
        CellBook::LimitOrders => if include_inactive {
            orders_any_active(c.limit_orders@)
        } else {
            c.limit_orders@.len() > 0
        },
        CellBook::MarketOrders => if include_inactive {
            orders_any_active(c.market_orders@)
        } else {
            c.market_orders@.len() > 0
        },
        CellBook::Positions => if include_inactive {
            positions_any_active(c.positions@)
        } else {
            c.positions@.len() > 0
        },
    }
}

/// The open price of the candle when `flag` holds, else NaN.
pub open spec fn open_if(c: TradeCell, flag: bool) -> Num {
    if flag {
        c.src@[1]
    } else {
        nan()
    }
}

/// The candle can show its open price when `flag` asks for it.
pub open spec fn opens(c: TradeCell, flag: bool) -> bool {
    flag ==> 1 < c.src@.len()
}

/// [`StatCollector::to_some`] at one candle.
pub open spec fn some_at(c: TradeCell, which: CellBook, include_inactive: bool) -> Num {
    open_if(c, marked(c, which, include_inactive))
}

/// A limit order was filled in the candle.
pub open spec fn limit_filled_at(c: TradeCell) -> Num {
    open_if(c, orders_any_inactive(c.limit_orders@))
}

/// [`StatCollector::to_entry`] at one candle: an order went in (a market order
/// still active, or a limit order filled) while a position is active.
pub open spec fn entry_at(c: TradeCell) -> Num {
    both(
        either(some_at(c, CellBook::MarketOrders, true), limit_filled_at(c)),
        some_at(c, CellBook::Positions, true),
    )
}

/// [`StatCollector::to_exit`] at one candle: a position was closed.
pub open spec fn exit_at(c: TradeCell) -> Num {
    open_if(c, positions_any_inactive(c.positions@))
}

/// [`StatCollector::to_entry_and_exit`] at one candle.
pub open spec fn entry_exit_at(c: TradeCell) -> Num {
    either(entry_at(c), exit_at(c))
}

/// [`StatCollector::to_positions_entry_exit`] at one candle.
pub open spec fn positions_entry_exit_at(c: TradeCell) -> Num {
    both(some_at(c, CellBook::Positions, false), entry_exit_at(c))
}

/// The number `which` of a position.
pub open spec fn position_value(p: Position, which: PositionValue) -> Num {
    match which {
        PositionValue::Qty => p.qty,
        PositionValue::Leverage => p.leverage,
        PositionValue::AvgOpenPrice => p.avg_open_price,
        PositionValue::PnlQty => p.pnl_qty,
        PositionValue::PnlPercent => p.pnl_percent,
    }
}

/// [`StatCollector::to_value_positions`] at one candle: the number of the
/// first position, on candles where a position went in or out.
pub open spec fn value_at(c: TradeCell, which: PositionValue) -> Num {
    both(
        if c.positions@.len() > 0 {
            position_value(c.positions@[0].1, which)
        } else {
            nan()
        },
        entry_exit_at(c),
    )
}

/// Every candle that shows its open price in the entry column has one.
pub open spec fn entry_readable(c: TradeCell) -> bool {
    &&& opens(c, marked(c, CellBook::MarketOrders, true))
    &&& opens(c, orders_any_inactive(c.limit_orders@))
    &&& opens(c, marked(c, CellBook::Positions, true))
}

/// Every candle that shows its open price in the entry or exit column has one.
pub open spec fn entry_exit_readable(c: TradeCell) -> bool {
    entry_readable(c) && opens(c, positions_any_inactive(c.positions@))
}

/// The candles of one backtest, in order.
#[derive(Debug)]
pub struct StatCollector {
    pub symbol: String,
    pub cells: Vec<TradeCell>,
}

/// Reads the number `which` of a position.
fn read_value(p: &Position, which: PositionValue) -> (r: Num)
    ensures
        r == position_value(*p, which),
{
    match which {
        PositionValue::Qty => p.qty,
        PositionValue::Leverage => p.leverage,
        PositionValue::AvgOpenPrice => p.avg_open_price,
        PositionValue::PnlQty => p.pnl_qty,
        PositionValue::PnlPercent => p.pnl_percent,
    }
}

fn any_active<T: IsActive>(s: &Vec<(String, T)>) -> (r: bool)
    ensures
        r == exists|i: int| 0 <= i < s@.len() && s@[i].1.active(),
{
    let mut i: usize = 0;
    while i < s.len()
        invariant
            i <= s@.len(),
            forall|j: int| 0 <= j < i ==> !s@[j].1.active(),
        decreases s@.len() - i,
    {
        if s[i].1.is_active() {
            return true;
        }
        i = i + 1;
    }
    false
}

fn any_inactive<T: IsActive>(s: &Vec<(String, T)>) -> (r: bool)
    ensures
        r == exists|i: int| 0 <= i < s@.len() && !s@[i].1.active(),
{
    let mut i: usize = 0;
    while i < s.len()
        invariant
            i <= s@.len(),
            forall|j: int| 0 <= j < i ==> s@[j].1.active(),
        decreases s@.len() - i,
    {
        if !s[i].1.is_active() {
            return true;
        }
        i = i + 1;
    }
    false
}

fn marks(c: &TradeCell, which: CellBook, include_inactive: bool) -> (r: bool)
    ensures
        r == marked(*c, which, include_inactive),
{
    match which {
        CellBook::TriggerOrders => if include_inactive {
            any_active(&c.trigger_orders)
        } else {
            c.trigger_orders.len() > 0
        },
        CellBook::LimitOrders => if include_inactive {
            any_active(&c.limit_orders)
        } else {
            c.limit_orders.len() > 0
        },
        CellBook::MarketOrders => if include_inactive {
            any_active(&c.market_orders)
        } else {
            c.market_orders.len() > 0
        },
        CellBook::Positions => if include_inactive {
            any_active(&c.positions)
        } else {
            c.positions.len() > 0
        },
    }
}

fn open_or_nan(c: &TradeCell, flag: bool) -> (r: Num)
    requires
        opens(*c, flag),
    ensures
        r == open_if(*c, flag),
{
    if flag {
        c.src[1]
    } else {
        Num::nan_value()
    }
}

/// `[a, b]` as a table.
fn pair(a: Vec<Num>, b: Vec<Num>) -> (r: Vec<Vec<Num>>)
    ensures
        rows(r@) == seq![a@, b@],
{
    let mut r: Vec<Vec<Num>> = Vec::new();
    r.push(a);
    r.push(b);
    assert(rows(r@) =~= seq![a@, b@]);
    r
}

impl StatCollector {
    /// No candles yet.
    pub fn new(symbol: String) -> (r: Self)
        ensures
            r.symbol == symbol,
            r.cells@.len() == 0,
    {
        StatCollector { symbol, cells: Vec::new() }
    }

    /// Records the account at the close of the next candle.
    pub fn push(&mut self, cell: TradeCell)
        ensures
            final(self).symbol == old(self).symbol,
            final(self).cells@ == old(self).cells@.push(cell),
    {
        self.cells.push(cell);
    }

    /// Column by column, the value of the first row where every row holds a
    /// normal number, NaN elsewhere.
    pub fn to_all(values: &[Vec<Num>]) -> (r: Vec<Num>)
        requires
            all_readable(rows(values@)),
        ensures
            r@.len() == values@[0]@.len(),
            forall|i: int|
                0 <= i < r@.len() ==> #[trigger] r@[i] == if (forall|j: int|
                    0 <= j < values@.len() ==> (#[trigger] values@[j]@[i]).normal()) {
                    values@[0]@[i]
                } else {
                    nan()
                },
    {
        let ghost t = rows(values@);
        let first = &values[0];
        let mut r: Vec<Num> = Vec::new();
        let mut i: usize = 0;
        while i < first.len()
            invariant
                t == rows(values@),
                all_readable(t),
                *first == values@[0],
                i <= first@.len(),
                r@.len() == i,
                forall|x: int|
                    0 <= x < i ==> #[trigger] r@[x] == if (forall|j: int|
                        0 <= j < values@.len() ==> (#[trigger] values@[j]@[x]).normal()) {
                        values@[0]@[x]
                    } else {
                        nan()
                    },
            decreases first@.len() - i,
        {
            let mut all = true;
            let mut j: usize = 0;
            while j < values.len() && all
                invariant
                    t == rows(values@),
                    all_readable(t),
                    *first == values@[0],
                    i < first@.len(),
                    j <= values@.len(),
                    all == forall|y: int| 0 <= y < j ==> (#[trigger] values@[y]@[i as int]).normal(),
                decreases values@.len() - j,
            {
                proof {
                    assert(t[0] == values@[0]@);
                    assert forall|y: int| 0 <= y < j implies (#[trigger] t[y][i as int]).normal()
                        == values@[y]@[i as int].normal() by {
                        assert(t[y] == values@[y]@);
                    }
                    assert(t[j as int] == values@[j as int]@);
                    assert(normal_above(t, i as int, j as int));
                    assert(i < t[j as int].len());
                }
                all = values[j][i].is_normal();
                j = j + 1;
            }
            proof {
                if !all {
                    let y = choose|y: int| 0 <= y < j && !(#[trigger] values@[y]@[i as int]).normal();
                    assert(0 <= y < values@.len());
                }
            }
            let v = if all {
                first[i]
            } else {
                Num::nan_value()
            };
            r.push(v);
            i = i + 1;
        }
        r
    }

    /// Column by column, the first normal number down the rows, NaN where
    /// there is none.
    pub fn to_any(values: &[Vec<Num>]) -> (r: Vec<Num>)
        requires
            any_readable(rows(values@)),
        ensures
            r@.len() == values@[0]@.len(),
            forall|i: int|
                0 <= i < r@.len() ==> #[trigger] r@[i] == first_normal(
                    column_from(rows(values@), i, 0),
                ),
    {
        let ghost t = rows(values@);
        let first = &values[0];
        let mut r: Vec<Num> = Vec::new();
        let mut i: usize = 0;
        while i < first.len()
            invariant
                t == rows(values@),
                any_readable(t),
                *first == values@[0],
                i <= first@.len(),
                r@.len() == i,
                forall|x: int|
                    0 <= x < i ==> #[trigger] r@[x] == first_normal(column_from(t, x, 0)),
            decreases first@.len() - i,
        {
            assert(t[0] == values@[0]@);
            let mut found: Option<Num> = None;
            let mut j: usize = 0;
            while j < values.len() && found.is_none()
                invariant
                    t == rows(values@),
                    any_readable(t),
                    i < t[0].len(),
                    j <= values@.len(),
                    found is None ==> abnormal_above(t, i as int, j as int),
                    first_normal(column_from(t, i as int, 0)) == match found {
                        Some(v) => v,
                        None => first_normal(column_from(t, i as int, j as int)),
                    },
                decreases values@.len() - j,
            {
                let ghost c = column_from(t, i as int, j as int);
                proof {
                    assert(t[j as int] == values@[j as int]@);
                    assert(i < t[j as int].len());
                    assert(c[0] == values@[j as int]@[i as int]);
                    assert(c.drop_first() =~= column_from(t, i as int, j + 1));
                }
                let v = values[j][i];
                if v.is_normal() {
                    found = Some(v);
                } else {
                    proof {
                        assert forall|y: int| 0 <= y < j + 1 implies !(#[trigger] t[y][i as int]).normal() by {
                            if y == j {
                                assert(t[y] == values@[y]@);
                            }
                        }
                    }
                }
                j = j + 1;
            }
            let v = match found {
                Some(v) => v,
                None => {
                    assert(column_from(t, i as int, j as int).len() == 0);
                    Num::nan_value()
                },
            };
            r.push(v);
            i = i + 1;
        }
        r
    }

    /// Per candle, its open price where the records that `which` names hold
    /// something active (`include_inactive`) or hold anything at all (not
    /// `include_inactive`), NaN elsewhere.
    pub fn to_some(&self, which: CellBook, include_inactive: bool) -> (r: Vec<Num>)
        requires
            forall|i: int|
                0 <= i < self.cells@.len() ==> opens(
                    #[trigger] self.cells@[i],
                    marked(self.cells@[i], which, include_inactive),
                ),
        ensures
            r@.len() == self.cells@.len(),
            forall|i: int|
                0 <= i < r@.len() ==> #[trigger] r@[i] == some_at(
                    self.cells@[i],
                    which,
                    include_inactive,
                ),
    {
        let mut r: Vec<Num> = Vec::new();
        let mut i: usize = 0;
        while i < self.cells.len()
            invariant
                i <= self.cells@.len(),
                r@.len() == i,
                forall|i: int|
                    0 <= i < self.cells@.len() ==> opens(
                        #[trigger] self.cells@[i],
                        marked(self.cells@[i], which, include_inactive),
                    ),
                forall|x: int|
                    0 <= x < i ==> #[trigger] r@[x] == some_at(
                        self.cells@[x],
                        which,
                        include_inactive,
                    ),
            decreases self.cells@.len() - i,
        {
            let c = &self.cells[i];
            let flag = marks(c, which, include_inactive);
            r.push(open_or_nan(c, flag));
            i = i + 1;
        }
        r
    }

    /// Per candle, its open price where a limit order was filled.
    fn limit_fills(&self) -> (r: Vec<Num>)
        requires
            forall|i: int|
                0 <= i < self.cells@.len() ==> opens(
                    #[trigger] self.cells@[i],
                    orders_any_inactive(self.cells@[i].limit_orders@),
                ),
        ensures
            r@.len() == self.cells@.len(),
            forall|i: int| 0 <= i < r@.len() ==> #[trigger] r@[i] == limit_filled_at(self.cells@[i]),
    {
        let mut r: Vec<Num> = Vec::new();
        let mut i: usize = 0;
        while i < self.cells.len()
            invariant
                i <= self.cells@.len(),
                r@.len() == i,
                forall|i: int|
                    0 <= i < self.cells@.len() ==> opens(
                        #[trigger] self.cells@[i],
                        orders_any_inactive(self.cells@[i].limit_orders@),
                    ),
                forall|x: int| 0 <= x < i ==> #[trigger] r@[x] == limit_filled_at(self.cells@[x]),
            decreases self.cells@.len() - i,
        {
            let c = &self.cells[i];
            let flag = any_inactive(&c.limit_orders);
            r.push(open_or_nan(c, flag));
            i = i + 1;
        }
        r
    }

    /// The capital at the close of each candle.
    pub fn to_capital(&self) -> (r: Vec<Num>)
        ensures
            r@.len() == self.cells@.len(),
            forall|i: int| 0 <= i < r@.len() ==> #[trigger] r@[i] == self.cells@[i].capital,
    {
        let mut r: Vec<Num> = Vec::new();
        let mut i: usize = 0;
        while i < self.cells.len()
            invariant
                i <= self.cells@.len(),
                r@.len() == i,
                forall|x: int| 0 <= x < i ==> #[trigger] r@[x] == self.cells@[x].capital,
            decreases self.cells@.len() - i,
        {
            r.push(self.cells[i].capital);
            i = i + 1;
        }
        r
    }

    /// Per candle, its open price where a position was closed.
    pub fn to_exit(&self) -> (r: Vec<Num>)
        requires
            forall|i: int|
                0 <= i < self.cells@.len() ==> opens(
                    #[trigger] self.cells@[i],
                    positions_any_inactive(self.cells@[i].positions@),
                ),
        ensures
            r@.len() == self.cells@.len(),
            forall|i: int| 0 <= i < r@.len() ==> #[trigger] r@[i] == exit_at(self.cells@[i]),
    {
        let mut r: Vec<Num> = Vec::new();
        let mut i: usize = 0;
        while i < self.cells.len()
            invariant
                i <= self.cells@.len(),
                r@.len() == i,
                forall|i: int|
                    0 <= i < self.cells@.len() ==> opens(
                        #[trigger] self.cells@[i],
                        positions_any_inactive(self.cells@[i].positions@),
                    ),
                forall|x: int| 0 <= x < i ==> #[trigger] r@[x] == exit_at(self.cells@[x]),
            decreases self.cells@.len() - i,
        {
            let c = &self.cells[i];
            let flag = any_inactive(&c.positions);
            r.push(open_or_nan(c, flag));
            i = i + 1;
        }
        r
    }

    /// Per candle, its open price where an order went in while a position is
    /// active: a market order still active or a limit order filled.
    pub fn to_entry(&self) -> (r: Vec<Num>)
        requires
            forall|i: int| 0 <= i < self.cells@.len() ==> entry_readable(#[trigger] self.cells@[i]),
        ensures
            r@.len() == self.cells@.len(),
            forall|i: int| 0 <= i < r@.len() ==> #[trigger] r@[i] == entry_at(self.cells@[i]),
    {
        let m = self.to_some(CellBook::MarketOrders, true);
        let l = self.limit_fills();
        let ghost (ms, ls) = (m@, l@);
        let rows_ml = pair(m, l);
        proof {
            lemma_pair_readable(ms, ls);
        }
        let any = Self::to_any(rows_ml.as_slice());
        let ghost anys = any@;
        let p = self.to_some(CellBook::Positions, true);
        let ghost ps = p@;
        let rows_ap = pair(any, p);
        proof {
            lemma_pair_readable(anys, ps);
        }
        let r = Self::to_all(rows_ap.as_slice());
        proof {
            assert forall|i: int| 0 <= i < r@.len() implies #[trigger] r@[i] == entry_at(
                self.cells@[i],
            ) by {
                lemma_pair_column(ms, ls, i);
                assert(rows(rows_ml@)[0] == ms);
                assert(rows(rows_ap@)[0] == anys && rows(rows_ap@)[1] == ps);
                assert(rows_ap@[0]@ == anys && rows_ap@[1]@ == ps);
                assert(anys[i] == either(ms[i], ls[i]));
                lemma_both_rows(rows_ap@, i);
            }
        }
        r
    }


    /// [`StatCollector::to_some`] of the market orders, active ones counting.
    pub fn to_market_orders(&self) -> (r: Vec<Num>)
        requires
            forall|i: int|
                0 <= i < self.cells@.len() ==> opens(
                    #[trigger] self.cells@[i],
                    marked(self.cells@[i], CellBook::MarketOrders, true),
                ),
        ensures
            r@.len() == self.cells@.len(),
            forall|i: int|
                0 <= i < r@.len() ==> #[trigger] r@[i] == some_at(
                    self.cells@[i],
                    CellBook::MarketOrders,
                    true,
                ),
    {
        self.to_some(CellBook::MarketOrders, true)
    }

    /// [`StatCollector::to_some`] of the limit orders, active ones counting.
    pub fn to_limit_orders(&self) -> (r: Vec<Num>)
        requires
            forall|i: int|
                0 <= i < self.cells@.len() ==> opens(
                    #[trigger] self.cells@[i],
                    marked(self.cells@[i], CellBook::LimitOrders, true),
                ),
        ensures
            r@.len() == self.cells@.len(),
            forall|i: int|
                0 <= i < r@.len() ==> #[trigger] r@[i] == some_at(
                    self.cells@[i],
                    CellBook::LimitOrders,
                    true,
                ),
    {
        self.to_some(CellBook::LimitOrders, true)
    }

    /// Per candle, the entry where there is one, else the exit, else NaN.
    pub fn to_entry_and_exit(&self) -> (r: Vec<Num>)
        requires
            forall|i: int|
                0 <= i < self.cells@.len() ==> entry_exit_readable(#[trigger] self.cells@[i]),
        ensures
            r@.len() == self.cells@.len(),
            forall|i: int| 0 <= i < r@.len() ==> #[trigger] r@[i] == entry_exit_at(self.cells@[i]),
    {
        let entry = self.to_entry();
        let exit = self.to_exit();
        let mut r: Vec<Num> = Vec::new();
        let mut i: usize = 0;
        while i < entry.len()
            invariant
                entry@.len() == self.cells@.len(),
                exit@.len() == self.cells@.len(),
                forall|x: int| 0 <= x < entry@.len() ==> #[trigger] entry@[x] == entry_at(self.cells@[x]),
                forall|x: int| 0 <= x < exit@.len() ==> #[trigger] exit@[x] == exit_at(self.cells@[x]),
                i <= entry@.len(),
                r@.len() == i,
                forall|x: int| 0 <= x < i ==> #[trigger] r@[x] == entry_exit_at(self.cells@[x]),
            decreases entry@.len() - i,
        {
            let a = entry[i];
            let b = exit[i];
            let v = if a.is_normal() {
                a
            } else if b.is_normal() {
                b
            } else {
                Num::nan_value()
            };
            r.push(v);
            i = i + 1;
        }
        r
    }

    /// Per candle, the entry or exit where some position is held.
    pub fn to_positions_entry_exit(&self) -> (r: Vec<Num>)
        requires
            forall|i: int|
                0 <= i < self.cells@.len() ==> entry_exit_readable(#[trigger] self.cells@[i])
                    && opens(self.cells@[i], marked(self.cells@[i], CellBook::Positions, false)),
        ensures
            r@.len() == self.cells@.len(),
            forall|i: int|
                0 <= i < r@.len() ==> #[trigger] r@[i] == positions_entry_exit_at(self.cells@[i]),
    {
        let held = self.to_some(CellBook::Positions, false);
        let ghost hs = held@;
        let ee = self.to_entry_and_exit();
        let ghost es = ee@;
        let t = pair(held, ee);
        proof {
            lemma_pair_readable(hs, es);
        }
        let r = Self::to_all(t.as_slice());
        proof {
            assert forall|i: int| 0 <= i < r@.len() implies #[trigger] r@[i]
                == positions_entry_exit_at(self.cells@[i]) by {
                assert(rows(t@)[0] == hs && rows(t@)[1] == es);
                assert(t@[0]@ == hs && t@[1]@ == es);
                lemma_both_rows(t@, i);
            }
        }
        r
    }

    /// Per candle, the number `which` of the first position, where an entry
    /// or an exit happened.
    pub fn to_value_positions(&self, which: PositionValue) -> (r: Vec<Num>)
        requires
            forall|i: int|
                0 <= i < self.cells@.len() ==> entry_exit_readable(#[trigger] self.cells@[i]),
        ensures
            r@.len() == self.cells@.len(),
            forall|i: int| 0 <= i < r@.len() ==> #[trigger] r@[i] == value_at(self.cells@[i], which),
    {
        let mut col: Vec<Num> = Vec::new();
        let mut i: usize = 0;
        while i < self.cells.len()
            invariant
                i <= self.cells@.len(),
                col@.len() == i,
                forall|x: int|
                    0 <= x < i ==> #[trigger] col@[x] == if self.cells@[x].positions@.len() > 0 {
                        position_value(self.cells@[x].positions@[0].1, which)
                    } else {
                        nan()
                    },
            decreases self.cells@.len() - i,
        {
            let c = &self.cells[i];
            let v = if c.positions.len() > 0 {
                read_value(&c.positions[0].1, which)
            } else {
                Num::nan_value()
            };
            col.push(v);
            i = i + 1;
        }
        let ghost cs = col@;
        let ee = self.to_entry_and_exit();
        let ghost es = ee@;
        let t = pair(col, ee);
        proof {
            lemma_pair_readable(cs, es);
        }
        let r = Self::to_all(t.as_slice());
        proof {
            assert forall|i: int| 0 <= i < r@.len() implies #[trigger] r@[i] == value_at(
                self.cells@[i],
                which,
            ) by {
                assert(rows(t@)[0] == cs && rows(t@)[1] == es);
                assert(t@[0]@ == cs && t@[1]@ == es);
                lemma_both_rows(t@, i);
            }
        }
        r
    }

    /// Column `k` of every candle.
    fn candle_values(&self, k: usize) -> (r: Vec<Num>)
        requires
            forall|i: int| 0 <= i < self.cells@.len() ==> k < (#[trigger] self.cells@[i]).src@.len(),
        ensures
            r@ == candle_column(self.cells@, k as int),
    {
        let mut r: Vec<Num> = Vec::new();
        let mut i: usize = 0;
        while i < self.cells.len()
            invariant
                i <= self.cells@.len(),
                forall|i: int| 0 <= i < self.cells@.len() ==> k < (#[trigger] self.cells@[i]).src@.len(),
                r@ == candle_column(self.cells@, k as int).take(i as int),
            decreases self.cells@.len() - i,
        {
            r.push(self.cells[i].src[k]);
            i = i + 1;
            assert(r@ =~= candle_column(self.cells@, k as int).take(i as int));
        }
        assert(candle_column(self.cells@, k as int).take(i as int) =~= candle_column(self.cells@, k as int));
        r
    }

    /// All statistics of the backtest in two tables. The first holds, per
    /// candle, its index, the six prices and volumes of the candle, the
    /// capital, the entries, the exits, the profit `pnl` (given per candle)
    /// where a position was closed, and the quantity of the first position at
    /// entries and exits. The second holds the index and price of the candles
    /// where a position was held and entered or left.
    pub fn to_data(&self, pnl: &Vec<Num>) -> (r: StatData)
        requires
            forall|i: int| 0 <= i < self.cells@.len() ==> 6 < (#[trigger] self.cells@[i]).src@.len(),
            pnl@.len() == self.cells@.len(),
            self.cells@.len() < EXACT_WHOLE_LIMIT,
        ensures
            tables(r) == data_tables(self.cells@, pnl@),
    {
        let ghost cells = self.cells@;
        let n = self.cells.len();
        let time = index_column(n);
        let open = self.candle_values(1);
        let high = self.candle_values(2);
        let low = self.candle_values(3);
        let close = self.candle_values(4);
        let volume = self.candle_values(5);
        let turnover = self.candle_values(6);
        let capital = self.to_capital();
        let entry = self.to_entry();
        let exit = self.to_exit();
        let ghost es = exit@;
        let ghost ps = pnl@;
        let t = pair(copy_column(pnl), copy_column(&exit));
        proof {
            lemma_pair_readable(ps, es);
        }
        let profit = Self::to_all(t.as_slice());
        let qty = self.to_value_positions(PositionValue::Qty);
        proof {
            assert(capital@ =~= cells.map_values(|c: TradeCell| c.capital));
            assert(entry@ =~= cells.map_values(|c: TradeCell| entry_at(c)));
            assert(exit@ =~= cells.map_values(|c: TradeCell| exit_at(c)));
            assert(qty@ =~= cells.map_values(|c: TradeCell| value_at(c, PositionValue::Qty)));
            assert forall|i: int| 0 <= i < profit@.len() implies #[trigger] profit@[i] == both(
                ps[i],
                exit_at(cells[i]),
            ) by {
                assert(rows(t@)[0] == ps && rows(t@)[1] == es);
                assert(t@[0]@ == ps && t@[1]@ == es);
                lemma_both_rows(t@, i);
            }
            assert(profit@ =~= Seq::new(cells.len(), |i: int| both(ps[i], exit_at(cells[i]))));
        }
        let mut summary: Vec<(String, Vec<Num>)> = Vec::new();
        summary.push(("time".to_owned(), time));
        summary.push(("open".to_owned(), open));
        summary.push(("high".to_owned(), high));
        summary.push(("low".to_owned(), low));
        summary.push(("close".to_owned(), close));
        summary.push(("volume".to_owned(), volume));
        summary.push(("turnover".to_owned(), turnover));
        summary.push(("capital".to_owned(), capital));
        summary.push(("entry".to_owned(), entry));
        summary.push(("exit".to_owned(), exit));
        summary.push(("pnl".to_owned(), profit));
        summary.push(("qty".to_owned(), qty));
        assert(book(summary@) =~= summary_table(cells, ps));
        let held_col = self.to_positions_entry_exit();
        let ghost hc = held_col@;
        proof {
            assert(hc =~= cells.map_values(|c: TradeCell| positions_entry_exit_at(c)));
        }
        let pe = held_col.del_nan(1);
        let mut held: Vec<(String, Vec<Num>)> = Vec::new();
        if pe.len() > 0 {
            let mut times: Vec<Num> = Vec::new();
            let mut prices: Vec<Num> = Vec::new();
            let mut k: usize = 0;
            while k < pe.len()
                invariant
                    pe@ == indexed_normal(hc),
                    hc.len() == cells.len(),
                    cells.len() < EXACT_WHOLE_LIMIT,
                    k <= pe@.len(),
                    times@ == pe@.take(k as int).map_values(
                        |e: (usize, Num)| Num(whole_bits(e.0 as nat) as u64),
                    ),
                    prices@ == pe@.take(k as int).map_values(|e: (usize, Num)| e.1),
                decreases pe@.len() - k,
            {
                proof {
                    lemma_indexed_normal_index(hc, k as int);
                }
                times.push(Num::from_index(pe[k].0));
                prices.push(pe[k].1);
                k = k + 1;
                proof {
                    assert(times@ =~= pe@.take(k as int).map_values(
                        |e: (usize, Num)| Num(whole_bits(e.0 as nat) as u64),
                    ));
                    assert(prices@ =~= pe@.take(k as int).map_values(|e: (usize, Num)| e.1));
                }
            }
            assert(pe@.take(pe@.len() as int) =~= pe@);
            held.push(("time".to_owned(), times));
            held.push(("positions_entry_exit".to_owned(), prices));
        }
        assert(book(held@) =~= held_table(cells));
        let mut all: Vec<Vec<(String, Vec<Num>)>> = Vec::new();
        all.push(summary);
        all.push(held);
        let r = StatData(all);
        assert(tables(r) =~= data_tables(cells, ps));
        r
    }

}


/// Each value of `s` with its index.
pub open spec fn indexed(s: Seq<Num>) -> Seq<(usize, Num)> {
    Seq::new(s.len(), |i: int| (i as usize, s[i]))
}

pub open spec fn normal_entry() -> spec_fn((usize, Num)) -> bool {
    |e: (usize, Num)| e.1.normal()
}

/// The normal numbers of `s` with their indices, in order.
pub open spec fn indexed_normal(s: Seq<Num>) -> Seq<(usize, Num)> {
    indexed(s).filter(normal_entry())
}

/// Dropping the values that are not normal numbers from a column.
pub trait NumsExt {
    fn del_nan(self, sep: usize) -> Vec<(usize, Num)>;
}

impl NumsExt for Vec<Num> {
    /// The normal numbers of the column with their indices, in order. Runs of
    /// other values are counted against `sep` on the way, which leaves the
    /// result as it is: every value that is not a normal number is dropped.
    fn del_nan(self, sep: usize) -> (r: Vec<(usize, Num)>)
        ensures
            r@ == indexed_normal(self@),
    {
        let ghost keep = normal_entry();
        let mut run: usize = 0;
        let mut r: Vec<(usize, Num)> = Vec::new();
        let mut i: usize = 0;
        while i < self.len()
            invariant
                i <= self@.len(),
                run <= i,
                keep == normal_entry(),
                r@ == indexed(self@).take(i as int).filter(keep),
            decreases self@.len() - i,
        {
            let v = self[i];
            let item: (usize, Num) = if v.is_normal() {
                (i, v)
            } else {
                run = run + 1;
                if run <= sep {
                    (i, v)
                } else {
                    run = 0;
                    (0, Num::nan_value())
                }
            };
            proof {
                let e = indexed(self@)[i as int];
                assert(indexed(self@).take(i + 1) =~= indexed(self@).take(i as int).push(e));
                indexed(self@).take(i as int).lemma_filter_push(e, keep);
            }
            if item.1.is_normal() {
                r.push(item);
            }
            i = i + 1;
        }
        assert(indexed(self@).take(self@.len() as int) =~= indexed(self@));
        r
    }
}

/// Named columns, in the order they were added.
#[derive(Debug, PartialEq)]
pub struct StatData(pub Vec<Vec<(String, Vec<Num>)>>);

/// The tables of a [`StatData`] as books.
pub open spec fn tables(d: StatData) -> Seq<Book<Num>> {
    d.0@.map_values(|t: Vec<(String, Vec<Num>)>| book(t@))
}

/// The binary64 values of the indices `0 .. n`.
pub open spec fn times(n: nat) -> Seq<Num> {
    Seq::new(n, |i: int| Num(whole_bits(i as nat) as u64))
}

/// Column `k` of each candle.
pub open spec fn candle_column(cells: Seq<TradeCell>, k: int) -> Seq<Num> {
    cells.map_values(|c: TradeCell| c.src@[k])
}

/// The first table of [`StatCollector::to_data`].
pub open spec fn summary_table(cells: Seq<TradeCell>, pnl: Seq<Num>) -> Book<Num> {
    seq![
        ("time"@, times(cells.len())),
        ("open"@, candle_column(cells, 1)),
        ("high"@, candle_column(cells, 2)),
        ("low"@, candle_column(cells, 3)),
        ("close"@, candle_column(cells, 4)),
        ("volume"@, candle_column(cells, 5)),
        ("turnover"@, candle_column(cells, 6)),
        ("capital"@, cells.map_values(|c: TradeCell| c.capital)),
        ("entry"@, cells.map_values(|c: TradeCell| entry_at(c))),
        ("exit"@, cells.map_values(|c: TradeCell| exit_at(c))),
        ("pnl"@, Seq::new(cells.len(), |i: int| both(pnl[i], exit_at(cells[i])))),
        ("qty"@, cells.map_values(|c: TradeCell| value_at(c, PositionValue::Qty))),
    ]
}

/// The second table of [`StatCollector::to_data`]: the candles where a
/// position was held and entered or left, by index and price; no columns at
/// all when there is no such candle.
pub open spec fn held_table(cells: Seq<TradeCell>) -> Book<Num> {
    let pe = indexed_normal(cells.map_values(|c: TradeCell| positions_entry_exit_at(c)));
    if pe.len() > 0 {
        seq![
            ("time"@, pe.map_values(|e: (usize, Num)| Num(whole_bits(e.0 as nat) as u64))),
            ("positions_entry_exit"@, pe.map_values(|e: (usize, Num)| e.1)),
        ]
    } else {
        Seq::empty()
    }
}

/// The two tables of [`StatCollector::to_data`].
pub open spec fn data_tables(cells: Seq<TradeCell>, pnl: Seq<Num>) -> Seq<Book<Num>> {
    Seq::empty().push(summary_table(cells, pnl)).push(held_table(cells))
}

/// A copy of a column.
fn copy_column(v: &Vec<Num>) -> (r: Vec<Num>)
    ensures
        r@ == v@,
{
    let mut r: Vec<Num> = Vec::new();
    let mut i: usize = 0;
    while i < v.len()
        invariant
            i <= v@.len(),
            r@ == v@.take(i as int),
        decreases v@.len() - i,
    {
        r.push(v[i]);
        i = i + 1;
        assert(r@ =~= v@.take(i as int));
    }
    assert(v@.take(v@.len() as int) =~= v@);
    r
}

impl StatData {
    /// The columns of each table, without their names.
    pub fn to_vec(&self) -> (r: Vec<Vec<Vec<Num>>>)
        ensures
            r@.len() == self.0@.len(),
            forall|i: int|
                0 <= i < r@.len() ==> (#[trigger] r@[i])@.len() == self.0@[i]@.len() && forall|
                    j: int,
                |
                    0 <= j < r@[i]@.len() ==> (#[trigger] r@[i]@[j])@ == self.0@[i]@[j].1@,
    {
        let mut r: Vec<Vec<Vec<Num>>> = Vec::new();
        let mut i: usize = 0;
        while i < self.0.len()
            invariant
                i <= self.0@.len(),
                r@.len() == i,
                forall|x: int|
                    0 <= x < i ==> (#[trigger] r@[x])@.len() == self.0@[x]@.len() && forall|
                        j: int,
                    |
                        0 <= j < r@[x]@.len() ==> (#[trigger] r@[x]@[j])@ == self.0@[x]@[j].1@,
            decreases self.0@.len() - i,
        {
            let table = &self.0[i];
            let mut cols: Vec<Vec<Num>> = Vec::new();
            let mut j: usize = 0;
            while j < table.len()
                invariant
                    j <= table@.len(),
                    cols@.len() == j,
                    forall|y: int| 0 <= y < j ==> (#[trigger] cols@[y])@ == table@[y].1@,
                decreases table@.len() - j,
            {
                cols.push(copy_column(&table[j].1));
                j = j + 1;
            }
            r.push(cols);
            i = i + 1;
        }
        r
    }
}

/// Every number a candle shows in the entry, exit and position columns is
/// its open price, and the combined column shows the entry where there is
/// one.
pub proof fn lemma_columns_show_open_price(c: TradeCell)
    ensures
        entry_at(c).normal() ==> entry_at(c) == c.src@[1],
        exit_at(c).normal() ==> exit_at(c) == c.src@[1],
        entry_exit_at(c).normal() ==> entry_exit_at(c) == c.src@[1],
        positions_entry_exit_at(c).normal() ==> positions_entry_exit_at(c) == c.src@[1],
        entry_at(c).normal() ==> entry_exit_at(c) == entry_at(c),
        !entry_at(c).normal() && exit_at(c).normal() ==> entry_exit_at(c) == exit_at(c),
        positions_entry_exit_at(c).normal() ==> c.positions@.len() > 0,
{
}

/// The columns of one candle in terms of what it holds. With `open` its open
/// price: an order went in when a market order is still active or a limit
/// order was filled (is inactive); the entry column shows `open` exactly
/// when an order went in while some position is active, the exit column
/// exactly when some position is inactive, the entry-or-exit column exactly
/// when either holds, and the positions column exactly when, besides, the
/// candle holds a position; each shows NaN otherwise, and all of them NaN
/// when `open` is not a normal number. A value column of the positions shows
/// that number of the first position where the entry-or-exit column shows
/// a price and the number is normal.
pub proof fn lemma_candle_columns(c: TradeCell)
    requires
        1 < c.src@.len(),
    ensures
        ({
            let open = c.src@[1];
            let market_in = exists|i: int|
                0 <= i < c.market_orders@.len() && c.market_orders@[i].1.is_active;
            let limit_filled = exists|i: int|
                0 <= i < c.limit_orders@.len() && !c.limit_orders@[i].1.is_active;
            let held = exists|i: int| 0 <= i < c.positions@.len() && c.positions@[i].1.is_active;
            let closed = exists|i: int|
                0 <= i < c.positions@.len() && !c.positions@[i].1.is_active;
            let entered = (market_in || limit_filled) && held;
            &&& entry_at(c) == if entered && open.normal() {
                open
            } else {
                nan()
            }
            &&& exit_at(c).normal() <==> closed && open.normal()
            &&& entry_exit_at(c) == if (entered || closed) && open.normal() {
                open
            } else {
                nan()
            }
            &&& positions_entry_exit_at(c) == if c.positions@.len() > 0 && (entered || closed)
                && open.normal() {
                open
            } else {
                nan()
            }
            &&& forall|which: PositionValue|
                #[trigger] value_at(c, which) == if c.positions@.len() > 0 && position_value(
                    c.positions@[0].1,
                    which,
                ).normal() && (entered || closed) && open.normal() {
                    position_value(c.positions@[0].1, which)
                } else {
                    nan()
                }
        }),
{
    assert(!nan().normal());
}

/// What [`NumsExt::del_nan`] keeps are normal numbers of the column, each
/// with its index, in increasing order of index.
pub proof fn lemma_indexed_normal_sound(s: Seq<Num>)
    requires
        s.len() <= usize::MAX,
    ensures
        forall|k: int|
            0 <= k < indexed_normal(s).len() ==> {
                &&& (#[trigger] indexed_normal(s)[k]).1.normal()
                &&& (indexed_normal(s)[k].0 as int) < s.len()
                &&& indexed_normal(s)[k].1 == s[indexed_normal(s)[k].0 as int]
            },
        forall|k: int, l: int|
            0 <= k < l < indexed_normal(s).len() ==> indexed_normal(s)[k].0 < indexed_normal(
                s,
            )[l].0,
    decreases s.len(),
{
    reveal(Seq::filter);
    let pe = indexed_normal(s);
    assert forall|k: int| 0 <= k < pe.len() implies {
        &&& (#[trigger] pe[k]).1.normal()
        &&& (pe[k].0 as int) < s.len()
        &&& pe[k].1 == s[pe[k].0 as int]
    } by {
        lemma_indexed_normal_index(s, k);
        indexed(s).lemma_filter_pred(normal_entry(), k);
        assert(pe.contains(pe[k]));
        indexed(s).lemma_filter_contains_rev(normal_entry(), pe[k]);
        let w = choose|w: int| 0 <= w < indexed(s).len() && indexed(s)[w] == pe[k];
        assert(indexed(s)[w] == (w as usize, s[w]));
    }
    if s.len() > 0 {
        let d = s.drop_last();
        lemma_indexed_normal_sound(d);
        assert(indexed(s).drop_last() =~= indexed(d));
        let pd = indexed_normal(d);
        assert forall|k: int, l: int| 0 <= k < l < pe.len() implies pe[k].0 < pe[l].0 by {
            if (s.last()).normal() {
                assert(pe == pd.push(indexed(s).last()));
                if l == pe.len() - 1 {
                    lemma_indexed_normal_index(d, k);
                    assert(pe[k] == pd[k]);
                } else {
                    assert(pe[k] == pd[k] && pe[l] == pd[l]);
                }
            } else {
                assert(pe == pd);
            }
        }
    }
}

/// The binary64 values of the indices `0 .. n`.
fn index_column(n: usize) -> (r: Vec<Num>)
    requires
        n < EXACT_WHOLE_LIMIT,
    ensures
        r@ == times(n as nat),
{
    let mut r: Vec<Num> = Vec::new();
    let mut i: usize = 0;
    while i < n
        invariant
            i <= n < EXACT_WHOLE_LIMIT,
            r@ == times(n as nat).take(i as int),
        decreases n - i,
    {
        r.push(Num::from_index(i));
        i = i + 1;
        assert(r@ =~= times(n as nat).take(i as int));
    }
    assert(times(n as nat).take(n as int) =~= times(n as nat));
    r
}

/// The indices kept by [`indexed_normal`] lie within the column.
proof fn lemma_indexed_normal_index(s: Seq<Num>, k: int)
    requires
        0 <= k < indexed_normal(s).len(),
    ensures
        (indexed_normal(s)[k].0 as int) < s.len(),
{
    let pe = indexed_normal(s);
    assert(pe.contains(pe[k]));
    indexed(s).lemma_filter_contains_rev(normal_entry(), pe[k]);
    let w = choose|w: int| 0 <= w < indexed(s).len() && indexed(s)[w] == pe[k];
    assert(indexed(s)[w].0 == w as usize);
}

/// Column `i` of a two-row table holds normal numbers throughout exactly
/// when both of its cells do.
proof fn lemma_both_rows(t: Seq<Vec<Num>>, i: int)
    requires
        t.len() == 2,
    ensures
        (forall|j: int| 0 <= j < t.len() ==> (#[trigger] t[j]@[i]).normal()) == (t[0]@[i].normal()
            && t[1]@[i].normal()),
{
}

/// Two rows of equal length can be read by `to_all` and `to_any`.
proof fn lemma_pair_readable(a: Seq<Num>, b: Seq<Num>)
    requires
        a.len() == b.len(),
    ensures
        all_readable(seq![a, b]),
        any_readable(seq![a, b]),
{
    let t = seq![a, b];
    assert(t[0] == a && t[1] == b);
}

/// Column `i` of two rows, and its first normal number.
proof fn lemma_pair_column(a: Seq<Num>, b: Seq<Num>, i: int)
    ensures
        column_from(seq![a, b], i, 0) == seq![a[i], b[i]],
        first_normal(seq![a[i], b[i]]) == either(a[i], b[i]),
{
    let t = seq![a, b];
    assert(column_from(t, i, 0) =~= seq![a[i], b[i]]);
    let c = seq![a[i], b[i]];
    assert(c.drop_first() =~= seq![b[i]]);
    assert(seq![b[i]].drop_first() =~= Seq::<Num>::empty());
    reveal_with_fuel(first_normal, 3);
}

} // verus!

//! Executing the due orders of an account, one pass over its orders.
//!
//! [`TradeState::execute`] runs a whole pass; the binary64 arithmetic of each
//! order is done by functions that the caller hands over. The same pass can
//! also be driven step by step: [`TradeState::execute_next`] takes the next
//! due order out, the caller prices it, and [`TradeState::execute_settle`]
//! refuses it or books it.
use vstd::prelude::*;

use crate::book::{book, distinct_keys, lemma_remove_keeps_distinct, lemma_same_keys, Book};
use crate::num::{num_lt, Num};
use crate::rules::{executable, is_executable, is_to_execute, readable, to_execute};
use crate::state::{distinct_positions, TradeState};
use crate::types::{Capital, ErrorTrade, Order, Position};

verus! {

/// Some entry of the positions has the index `idx`.
pub open spec fn has_position(p: Seq<(usize, Position)>, idx: usize) -> bool {
    exists|i: int| 0 <= i < p.len() && p[i].0 == idx
}

/// Where the position with index `idx` stands (meaningful when
/// [`has_position`] holds).
pub open spec fn position_at(p: Seq<(usize, Position)>, idx: usize) -> int {
    choose|i: int| 0 <= i < p.len() && p[i].0 == idx
}

/// The order as it leaves execution: no longer active, filled at `last_price`.
pub open spec fn filled(o: Order, last_price: Num) -> Order {
    Order { is_active: false, price: Some(last_price), ..o }
}

/// The position that an order opens at `last_price`.
pub open spec fn opened(o: Order, last_price: Num) -> Position {
    Position {
        symbol: o.symbol,
        side: o.side,
        qty: o.qty,
        leverage: o.leverage,
        avg_open_price: last_price,
        position_idx: o.position_idx,
        is_active: true,
        pnl_qty: Num(0),
        pnl_percent: Num(0),
    }
}

/// The positions after an order was executed at `last_price`: the position it
/// belongs to becomes `changed` when there is one; otherwise the order opens a
/// new position, which goes at the end.
pub open spec fn settled_positions(
    p: Seq<(usize, Position)>,
    o: Order,
    last_price: Num,
    changed: Option<Position>,
) -> Seq<(usize, Position)> {
    if has_position(p, o.position_idx) {
        p.update(position_at(p, o.position_idx), (o.position_idx, changed->0))
    } else {
        p.push((o.position_idx, opened(o, last_price)))
    }
}

/// The order under name `k`, index `a` of the book is due on the candle.
pub open spec fn due(b: Book<Order>, k: int, a: int, src: Seq<Num>, src_l: Seq<Num>) -> bool {
    0 <= k < b.len() && 0 <= a < b[k].1.len() && to_execute(b[k].1[a], src, src_l)
}

/// Place `(k, a)` of a book comes at or after `(k0, a0)` and before `(k1, a1)`
/// when the book is read name by name, order by order.
pub open spec fn between(k: int, a: int, k0: int, a0: int, k1: int, a1: int) -> bool {
    (k > k0 || (k == k0 && a >= a0)) && (k < k1 || (k == k1 && a < a1))
}

/// No order before place `(k1, a1)` of the book is due: the part of the book
/// that a pass has gone over holds no due order.
pub open spec fn swept(b: Book<Order>, k1: int, a1: int, src: Seq<Num>, src_l: Seq<Num>) -> bool {
    forall|k: int, a: int| (k < k1 || (k == k1 && a < a1)) ==> !#[trigger] due(b, k, a, src, src_l)
}


pub open spec fn due_pred(src: Seq<Num>, src_l: Seq<Num>) -> spec_fn(Order) -> bool {
    |o: Order| to_execute(o, src, src_l)
}

pub open spec fn waiting_pred(src: Seq<Num>, src_l: Seq<Num>) -> spec_fn(Order) -> bool {
    |o: Order| !to_execute(o, src, src_l)
}

pub open spec fn fill_at(last_price: Num) -> spec_fn(Order) -> Order {
    |o: Order| filled(o, last_price)
}

/// The orders of `list` that are not due, in order.
pub open spec fn left_after(list: Seq<Order>, src: Seq<Num>, src_l: Seq<Num>) -> Seq<Order> {
    list.filter(waiting_pred(src, src_l))
}

/// The due orders of `list`, in order, filled at `last_price`.
pub open spec fn filled_from(
    list: Seq<Order>,
    src: Seq<Num>,
    src_l: Seq<Num>,
    last_price: Num,
) -> Seq<Order> {
    list.filter(due_pred(src, src_l)).map_values(fill_at(last_price))
}

/// The book after a full pass: every name keeps its orders that were not
/// due, in order.
pub open spec fn remaining(b: Book<Order>, src: Seq<Num>, src_l: Seq<Num>) -> Book<Order> {
    b.map_values(|e: (Seq<char>, Seq<Order>)| (e.0, left_after(e.1, src, src_l)))
}

/// What a full pass executed: under every name of the book, in the book's
/// order, its due orders in order, filled at the close of `src`.
pub open spec fn executed(b: Book<Order>, src: Seq<Num>, src_l: Seq<Num>) -> Book<Order> {
    b.map_values(|e: (Seq<char>, Seq<Order>)| (e.0, filled_from(e.1, src, src_l, src[4])))
}

/// The book after a pass that stopped at the refused order `a` of name `k`:
/// the names before it keep their orders that were not due, name `k` keeps
/// those of its orders before `a` that were not due and all its orders after
/// `a`, and the names after it are untouched.
pub open spec fn stopped_at(b: Book<Order>, k: int, a: int, src: Seq<Num>, src_l: Seq<Num>) -> Book<
    Order,
> {
    Seq::new(
        b.len(),
        |i: int|
            if i < k {
                (b[i].0, left_after(b[i].1, src, src_l))
            } else if i == k {
                (b[k].0, left_after(b[k].1.take(a), src, src_l) + b[k].1.skip(a + 1))
            } else {
                b[i]
            },
    )
}

/// Some order of the book is due.
pub open spec fn any_due(b: Book<Order>, src: Seq<Num>, src_l: Seq<Num>) -> bool {
    exists|k: int, a: int| #[trigger] due(b, k, a, src, src_l)
}

/// The result of an execution pass after the names `k0 .. k1` of `b` were
/// finished, the first of them with the executed orders `current`.
pub open spec fn finished(
    done: Book<Order>,
    b: Book<Order>,
    k0: int,
    k1: int,
    current: Seq<Order>,
) -> Book<Order> {
    done + Seq::new(
        (k1 - k0) as nat,
        |t: int|
            (b[k0 + t].0, if t == 0 {
                current
            } else {
                Seq::empty()
            }),
    )
}

/// Every order of the book can be tested against the candles.
pub open spec fn orders_readable(b: Book<Order>, src: Seq<Num>, src_l: Seq<Num>) -> bool {
    forall|k: int, a: int|
        0 <= k < b.len() && 0 <= a < b[k].1.len() ==> readable(#[trigger] b[k].1[a], src, src_l)
}

/// The due orders of the book in the order in which a pass meets them: name
/// by name, each name's due orders in turn.
pub open spec fn due_orders(b: Book<Order>, src: Seq<Num>, src_l: Seq<Num>) -> Seq<Order>
    decreases b.len(),
{
    if b.len() == 0 {
        Seq::empty()
    } else {
        due_orders(b.drop_last(), src, src_l) + b.last().1.filter(due_pred(src, src_l))
    }
}

/// The due orders that a pass has met before it comes to place `(k, a)` of
/// the book.
pub open spec fn met_before(b: Book<Order>, k: int, a: int, src: Seq<Num>, src_l: Seq<Num>) -> Seq<
    Order,
> {
    due_orders(b.take(k), src, src_l) + b[k].1.take(a).filter(due_pred(src, src_l))
}

/// A pass on a candle too short to have a close never reaches the close: its
/// first due order, if there is one, is refused whatever it costs.
pub open spec fn refused_on_short_candle<FR: Fn(Order) -> Num>(
    cost: FR,
    capital: Capital,
    dues: Seq<Order>,
    src: Seq<Num>,
) -> bool {
    src.len() <= 4 && dues.len() > 0 ==> {
        &&& !dues[0].is_reduce
        &&& forall|required: Num| cost.ensures((dues[0],), required) ==> num_lt(capital.0, required)
    }
}

/// The capital and positions after the first `prices.len()` orders of
/// `dues` were executed at `last_price`, starting from `start`, each with the
/// capital and changed position that its entry of `prices` holds.
pub open spec fn ledger(
    start: (Capital, Seq<(usize, Position)>),
    dues: Seq<Order>,
    prices: Seq<Priced>,
    last_price: Num,
) -> (Capital, Seq<(usize, Position)>)
    decreases prices.len(),
{
    if prices.len() == 0 {
        start
    } else {
        let before = ledger(start, dues, prices.drop_last(), last_price);
        let i = prices.len() - 1;
        (prices[i].capital, settled_positions(before.1, dues[i], last_price, prices[i].position))
    }
}

/// `pr` holds what the caller's functions gave for the order `o` on the
/// capital and positions `s`: its cost from `cost`; and, when the order was
/// accepted, which the capital then allowed, the capital and changed position
/// from `change` for an order on an existing position, or the capital from
/// `open` for one that opens a position.
pub open spec fn priced_by<FR, FC, FO>(
    cost: FR,
    change: FC,
    open: FO,
    s: (Capital, Seq<(usize, Position)>),
    o: Order,
    last_price: Num,
    pr: Priced,
    accepted: bool,
) -> bool where
    FR: Fn(Order) -> Num,
    FC: Fn(Capital, Order, Position, Num) -> (Capital, Position),
    FO: Fn(Capital, Order, Num) -> Capital,
 {
    &&& cost.ensures((o,), pr.required)
    &&& accepted ==> {
        &&& executable(s.0, o, pr.required) is Ok
        &&& if has_position(s.1, o.position_idx) {
            &&& pr.position is Some
            &&& change.ensures(
                (s.0, o, s.1[position_at(s.1, o.position_idx)].1, last_price),
                (pr.capital, pr.position->0),
            )
        } else {
            &&& pr.position is None
            &&& open.ensures((s.0, o, last_price), pr.capital)
        }
    }
}

/// Every entry of `prices` holds what the caller's functions gave for the
/// order of `dues` at the same place, on the capital and positions that the
/// entries before it left (see [`ledger`]); every order was accepted, but the
/// last one when `refused`.
pub open spec fn priced_pass<FR, FC, FO>(
    cost: FR,
    change: FC,
    open: FO,
    start: (Capital, Seq<(usize, Position)>),
    dues: Seq<Order>,
    prices: Seq<Priced>,
    last_price: Num,
    refused: bool,
) -> bool where
    FR: Fn(Order) -> Num,
    FC: Fn(Capital, Order, Position, Num) -> (Capital, Position),
    FO: Fn(Capital, Order, Num) -> Capital,
 {
    forall|i: int|
        0 <= i < prices.len() ==> priced_by(
            cost,
            change,
            open,
            ledger(start, dues, prices.take(i), last_price),
            dues[i],
            last_price,
            #[trigger] prices[i],
            !(refused && i == prices.len() - 1),
        )
}

/// Progress of one pass that executes the due orders of a [`TradeState`],
/// name by name, each name's orders in turn.
#[derive(Debug)]
pub struct Execution {
    /// The name whose orders are being worked on.
    pub key: usize,
    /// The next order of that name to look at.
    pub at: usize,
    /// The executed orders of the names finished so far.
    pub done: Vec<(String, Vec<Order>)>,
    /// The executed orders of the current name.
    pub current: Vec<Order>,
    /// The order taken out for execution, waiting to be settled.
    pub pending: Option<Order>,
}

/// What executing an order costs and leaves, in binary64 arithmetic, as the
/// caller computed it for the order and the position that
/// [`TradeState::execute_next`] handed out, or as the functions handed to
/// [`TradeState::execute`] gave it.
#[derive(Debug)]
pub struct Priced {
    /// `qty / leverage + commission` of the order.
    pub required: Num,
    /// The capital once the order is executed.
    pub capital: Capital,
    /// The changed position, when the order belongs to an existing one.
    pub position: Option<Position>,
}

impl Execution {
    /// A pass that has not looked at any order yet.
    pub fn new() -> (r: Self)
        ensures
            r.key == 0,
            r.at == 0,
            r.done@.len() == 0,
            r.current@.len() == 0,
            r.pending is None,
    {
        Execution { key: 0, at: 0, done: Vec::new(), current: Vec::new(), pending: None }
    }

    /// The pass stands inside the book `b`.
    pub open spec fn within(&self, b: Book<Order>) -> bool {
        &&& self.key <= b.len()
        &&& self.key < b.len() ==> self.at <= b[self.key as int].1.len()
    }
}

/// The first entry of the positions with index `idx`.
fn find_position(p: &Vec<(usize, Position)>, idx: usize) -> (r: Option<usize>)
    ensures
        match r {
            Some(i) => i < p@.len() && p@[i as int].0 == idx,
            None => !has_position(p@, idx),
        },
{
    let mut i: usize = 0;
    while i < p.len()
        invariant
            i <= p@.len(),
            forall|j: int| 0 <= j < i ==> p@[j].0 != idx,
        decreases p@.len() - i,
    {
        if p[i].0 == idx {
            return Some(i);
        }
        i = i + 1;
    }
    None
}

/// In positions with distinct indices, the entry at `i` is the one that
/// `position_at` names for its index.
pub proof fn lemma_position_at_unique(p: Seq<(usize, Position)>, i: int)
    requires
        distinct_positions(p),
        0 <= i < p.len(),
    ensures
        has_position(p, p[i].0),
        position_at(p, p[i].0) == i,
{
    assert(0 <= i < p.len() && p[i].0 == p[i].0);
}

impl TradeState {
    /// Takes the next due order of the pass out of the book and hands it out
    /// with the position it belongs to, if there is one. Names whose orders
    /// were all looked at are closed into `run.done` on the way. `None` when
    /// the pass has looked at every order.
    pub fn execute_next(&mut self, run: &mut Execution, src: &[Num], src_l: &[Num]) -> (r: Option<
        (Order, Option<Position>),
    >)
        requires
            old(self).wf(),
            old(run).within(book(old(self).orders@)),
            old(run).pending is None,
            orders_readable(book(old(self).orders@), src@, src_l@),
        ensures
            final(self).wf(),
            final(self).capital == old(self).capital,
            final(self).positions == old(self).positions,
            final(self).orders_trigger == old(self).orders_trigger,
            final(run).within(book(final(self).orders@)),
            ({
                let b = book(old(self).orders@);
                let (k0, a0) = (old(run).key as int, old(run).at as int);
                let (k1, a1) = (final(run).key as int, final(run).at as int);
                &&& k0 <= k1
                &&& forall|k: int, a: int|
                    between(k, a, k0, a0, k1, a1) ==> !due(b, k, a, src@, src_l@)
                &&& book(final(run).done@) == finished(
                    book(old(run).done@),
                    b,
                    k0,
                    k1,
                    old(run).current@,
                )
                &&& final(run).current@ == if k1 == k0 {
                    old(run).current@
                } else {
                    Seq::empty()
                }
                &&& match r {
                    Some((o, pos)) => {
                        &&& due(b, k1, a1, src@, src_l@)
                        &&& o == b[k1].1[a1]
                        &&& final(run).pending == Some(o)
                        &&& book(final(self).orders@) == b.update(k1, (b[k1].0, b[k1].1.remove(a1)))
                        &&& pos == if has_position(old(self).positions@, o.position_idx) {
                            Some(
                                old(self).positions@[position_at(
                                    old(self).positions@,
                                    o.position_idx,
                                )].1,
                            )
                        } else {
                            None::<Position>
                        }
                    },
                    None => {
                        &&& k1 == b.len()
                        &&& final(run).pending is None
                        &&& book(final(self).orders@) == b
                        &&& swept(b, k0, a0, src@, src_l@) ==> forall|k: int, a: int|
                            !#[trigger] due(b, k, a, src@, src_l@)
                    },
                }
                &&& swept(b, k0, a0, src@, src_l@) ==> swept(
                    book(final(self).orders@),
                    k1,
                    a1,
                    src@,
                    src_l@,
                )
            }),
    {
        let ghost b = book(self.orders@);
        let ghost k0 = run.key as int;
        let ghost a0 = run.at as int;
        let ghost done0 = book(run.done@);
        let ghost cur0 = run.current@;
        while run.key < self.orders.len()
            invariant
                self.wf(),
                self.capital == old(self).capital,
                self.positions == old(self).positions,
                self.orders_trigger == old(self).orders_trigger,
                b == book(self.orders@),
                b == book(old(self).orders@),
                k0 == old(run).key,
                a0 == old(run).at,
                done0 == book(old(run).done@),
                cur0 == old(run).current@,
                orders_readable(b, src@, src_l@),
                run.within(b),
                run.pending is None,
                k0 <= run.key,
                run.key == k0 ==> a0 <= run.at,
                forall|k: int, a: int|
                    between(k, a, k0, a0, run.key as int, run.at as int) ==> !due(
                        b,
                        k,
                        a,
                        src@,
                        src_l@,
                    ),
                book(run.done@) == finished(done0, b, k0, run.key as int, cur0),
                run.current@ == if run.key == k0 {
                    cur0
                } else {
                    Seq::empty()
                },
            decreases self.orders@.len() - run.key, self.orders@[run.key as int].1.len() - run.at,
        {
            let k = run.key;
            if run.at < self.orders[k].1.len() {
                let a = run.at;
                proof {
                    assert(b[k as int].1[a as int] == self.orders@[k as int].1@[a as int]);
                }
                if is_to_execute(&self.orders[k].1[a], src, src_l) {
                    let ghost pb = self.positions@;
                    let (name, mut list) = self.orders.remove(k);
                    let o = list.remove(a);
                    self.orders.insert(k, (name, list));
                    proof {
                        assert(book(self.orders@) =~= b.update(
                            k as int,
                            (b[k as int].0, b[k as int].1.remove(a as int)),
                        ));
                        lemma_same_keys(b, book(self.orders@));
                    }
                    let pos = match find_position(&self.positions, o.position_idx) {
                        Some(j) => {
                            proof {
                                lemma_position_at_unique(pb, j as int);
                            }
                            Some(self.positions[j].1.clone())
                        },
                        None => None,
                    };
                    run.pending = Some(o.clone());
                    proof {
                        let nb = book(self.orders@);
                        if swept(b, k0, a0, src@, src_l@) {
                            assert forall|kk: int, aa: int|
                                (kk < k || (kk == k && aa < a)) implies !#[trigger] due(
                                nb,
                                kk,
                                aa,
                                src@,
                                src_l@,
                            ) by {
                                if 0 <= kk < nb.len() && 0 <= aa < nb[kk].1.len() {
                                    assert(nb[kk].1[aa] == b[kk].1[aa]);
                                    assert(!due(b, kk, aa, src@, src_l@));
                                }
                            }
                        }
                    }
                    return Some((o, pos));
                }
                run.at = a + 1;
            } else {
                let name = self.orders[k].0.clone();
                let mut cur: Vec<Order> = Vec::new();
                std::mem::swap(&mut cur, &mut run.current);
                let ghost d = book(run.done@);
                run.done.push((name, cur));
                proof {
                    assert(book(run.done@) =~= d.push((b[k as int].0, cur@)));
                    assert(finished(done0, b, k0, k + 1, cur0) =~= finished(
                        done0,
                        b,
                        k0,
                        k as int,
                        cur0,
                    ).push((b[k as int].0, cur@)));
                }
                run.key = k + 1;
                run.at = 0;
            }
        }
        None
    }

    /// Books an order that the capital covers at `last_price`: the capital
    /// becomes the priced one, and the position that the order belongs to
    /// the changed one, or the order opens a new position.
    fn book_order(&mut self, o: Order, last_price: Num, priced: Priced) -> (f: Order)
        requires
            distinct_positions(old(self).positions@),
            has_position(old(self).positions@, o.position_idx) == priced.position is Some,
        ensures
            distinct_positions(final(self).positions@),
            final(self).orders == old(self).orders,
            final(self).orders_trigger == old(self).orders_trigger,
            f == filled(o, last_price),
            final(self).capital == priced.capital,
            final(self).positions@ == settled_positions(
                old(self).positions@,
                o,
                last_price,
                priced.position,
            ),
    {
        let mut o = o;
        let ghost p0 = self.positions@;
        proof {
            lemma_settled_distinct(p0, o, last_price, priced.position);
        }
        match find_position(&self.positions, o.position_idx) {
            Some(j) => {
                proof {
                    lemma_position_at_unique(p0, j as int);
                }
                match priced.position {
                    Some(changed) => {
                        let (idx, _) = self.positions.remove(j);
                        self.positions.insert(j, (idx, changed));
                        assert(self.positions@ =~= settled_positions(
                            p0,
                            o,
                            last_price,
                            priced.position,
                        ));
                    },
                    None => {},
                }
            },
            None => {
                let opened = Position::new(
                    o.symbol.clone(),
                    o.side.clone(),
                    o.qty,
                    o.leverage,
                    last_price,
                    o.position_idx,
                    true,
                );
                self.positions.push((o.position_idx, opened));
                assert(self.positions@ =~= settled_positions(p0, o, last_price, priced.position));
            },
        }
        self.capital = priced.capital;
        o.is_active = false;
        o.price = Some(last_price);
        o
    }

    /// Settles the order that [`TradeState::execute_next`] took out: refused
    /// when the capital does not cover it (see
    /// [`crate::rules::is_executable`]), and otherwise executed at the close
    /// of `src`, with the capital and the position that the caller priced.
    /// A refused order is dropped and leaves everything else as it was.
    pub fn execute_settle(&mut self, run: &mut Execution, src: &[Num], priced: Priced) -> (r:
        Result<(), ErrorTrade>)
        requires
            old(self).wf(),
            old(run).pending is Some,
            4 < src@.len(),
            has_position(old(self).positions@, old(run).pending->0.position_idx)
                == priced.position is Some,
        ensures
            final(self).wf(),
            final(self).orders == old(self).orders,
            final(self).orders_trigger == old(self).orders_trigger,
            final(run).pending is None,
            final(run).key == old(run).key,
            final(run).at == old(run).at,
            final(run).done == old(run).done,
            r == executable(old(self).capital, old(run).pending->0, priced.required),
            r is Err ==> final(self).capital == old(self).capital && final(self).positions
                == old(self).positions && final(run).current == old(run).current,
            r is Ok ==> {
                let o = old(run).pending->0;
                &&& final(self).capital == priced.capital
                &&& final(self).positions@ == settled_positions(
                    old(self).positions@,
                    o,
                    src@[4],
                    priced.position,
                )
                &&& final(run).current@ == old(run).current@.push(filled(o, src@[4]))
            },
    {
        let o = match run.pending.take() {
            Some(o) => o,
            None => {
                return Ok(());
            },
        };
        match is_executable(self.capital, &o, priced.required) {
            Err(e) => {
                return Err(e);
            },
            Ok(()) => {},
        }
        let last_price = src[4];
        let f = self.book_order(o, last_price, priced);
        run.current.push(f);
        Ok(())
    }
}


impl TradeState {
    /// Executes the due orders, name by name and each name's orders in turn,
    /// at the close of `src` (`src_l` is the candle before it).
    ///
    /// The binary64 arithmetic of an order is the caller's: `cost` gives what
    /// the order takes out of the capital, `qty / leverage + commission`;
    /// `change` gives the capital and the position after an order on an
    /// existing position, `open` the capital after an order that opens one.
    /// An order that the capital does not cover (see
    /// [`crate::rules::is_executable`]) stops the pass with the refusal: it is
    /// dropped, the due orders before it stay executed, and the orders after
    /// it stay in place. The close of `src` is read only once an order is
    /// accepted.
    ///
    /// In the contract, `prices` stands for what the three functions gave,
    /// one entry for each due order met (see [`priced_pass`]), and the capital
    /// and positions are those that [`ledger`] books from them.
    #[verifier::rlimit(40)]
    pub fn execute<FR, FC, FO>(
        &mut self,
        src: &[Num],
        src_l: &[Num],
        cost: FR,
        change: FC,
        open: FO,
    ) -> (r: Result<Vec<(String, Vec<Order>)>, ErrorTrade>) where
        FR: Fn(Order) -> Num,
        FC: Fn(Capital, Order, Position, Num) -> (Capital, Position),
        FO: Fn(Capital, Order, Num) -> Capital,

        requires
            old(self).wf(),
            orders_readable(book(old(self).orders@), src@, src_l@),
            forall|o: Order| cost.requires((o,)),
            forall|c: Capital, o: Order, p: Position, lp: Num| change.requires((c, o, p, lp)),
            forall|c: Capital, o: Order, lp: Num| open.requires((c, o, lp)),
            refused_on_short_candle(
                cost,
                old(self).capital,
                due_orders(book(old(self).orders@), src@, src_l@),
                src@,
            ),
        ensures
            final(self).wf(),
            final(self).orders_trigger == old(self).orders_trigger,
            ({
                let b0 = book(old(self).orders@);
                let start = (old(self).capital, old(self).positions@);
                let dues = due_orders(b0, src@, src_l@);
                let end = (final(self).capital, final(self).positions@);
                &&& dues.len() == 0 ==> end == start
                &&& match r {
                    Ok(done) => {
                        &&& book(final(self).orders@) == remaining(b0, src@, src_l@)
                        &&& book(done@) == executed(b0, src@, src_l@)
                        &&& exists|prices: Seq<Priced>|
                            {
                                &&& #[trigger] priced_pass(
                                    cost,
                                    change,
                                    open,
                                    start,
                                    dues,
                                    prices,
                                    src@[4],
                                    false,
                                )
                                &&& prices.len() == dues.len()
                                &&& ledger(start, dues, prices, src@[4]) == end
                            }
                    },
                    Err(e) => exists|k: int, a: int, prices: Seq<Priced>|
                        #![trigger due(b0, k, a, src@, src_l@), priced_pass(cost, change, open, start, dues, prices, src@[4], true)]
                        {
                            &&& due(b0, k, a, src@, src_l@)
                            &&& prices.len() == met_before(b0, k, a, src@, src_l@).len() + 1
                            &&& dues[prices.len() - 1] == b0[k].1[a]
                            &&& priced_pass(cost, change, open, start, dues, prices, src@[4], true)
                            &&& ledger(start, dues, prices.drop_last(), src@[4]) == end
                            &&& executable(end.0, b0[k].1[a], prices.last().required) == Err::<
                                (),
                                ErrorTrade,
                            >(e)
                            &&& book(final(self).orders@) == stopped_at(b0, k, a, src@, src_l@)
                        },
                }
            }),
    {
        let ghost b0 = book(self.orders@);
        let ghost lp = src@[4];
        let ghost due_p = due_pred(src@, src_l@);
        let ghost wait_p = waiting_pred(src@, src_l@);
        let ghost fill = fill_at(lp);
        let ghost start = (self.capital, self.positions@);
        let ghost dues = due_orders(b0, src@, src_l@);
        let ghost mut prices: Seq<Priced> = Seq::empty();
        proof {
            assert(b0.take(0) =~= Seq::<(Seq<char>, Seq<Order>)>::empty());
        }
        let mut done: Vec<(String, Vec<Order>)> = Vec::new();
        let mut k: usize = 0;
        while k < self.orders.len()
            invariant
                b0 == book(old(self).orders@),
                distinct_keys(b0),
                lp == src@[4],
                due_p == due_pred(src@, src_l@),
                wait_p == waiting_pred(src@, src_l@),
                fill == fill_at(lp),
                start == (old(self).capital, old(self).positions@),
                dues == due_orders(b0, src@, src_l@),
                orders_readable(b0, src@, src_l@),
                forall|o: Order| cost.requires((o,)),
                forall|c: Capital, o: Order, p: Position, lp: Num| change.requires((c, o, p, lp)),
                forall|c: Capital, o: Order, lp: Num| open.requires((c, o, lp)),
                refused_on_short_candle(cost, start.0, dues, src@),
                self.wf(),
                self.orders_trigger == old(self).orders_trigger,
                k <= b0.len(),
                book(self.orders@).len() == b0.len(),
                forall|i: int|
                    0 <= i < k ==> #[trigger] book(self.orders@)[i] == (
                        b0[i].0,
                        left_after(b0[i].1, src@, src_l@),
                    ),
                forall|i: int| k <= i < b0.len() ==> #[trigger] book(self.orders@)[i] == b0[i],
                book(done@) == executed(b0, src@, src_l@).take(k as int),
                prices.len() == due_orders(b0.take(k as int), src@, src_l@).len(),
                ledger(start, dues, prices, lp) == (self.capital, self.positions@),
                priced_pass(cost, change, open, start, dues, prices, lp, false),
                src@.len() <= 4 ==> prices.len() == 0,
            decreases b0.len() - k,
        {
            let ghost before = book(self.orders@);
            let ghost ov = self.orders@;
            let (name, list) = self.orders.remove(k);
            proof {
                assert((name, list) == ov[k as int]);
                assert(before[k as int] == (ov[k as int].0@, ov[k as int].1@));
                assert(before[k as int] == b0[k as int]);
                assert(list@ == b0[k as int].1 && name@ == b0[k as int].0);
                let cur = book(self.orders@);
                assert forall|i: int| 0 <= i < k implies #[trigger] cur[i] == (
                    b0[i].0,
                    left_after(b0[i].1, src@, src_l@),
                ) by {
                    assert(cur[i] == before[i]);
                }
                assert forall|i: int| k <= i < b0.len() - 1 implies #[trigger] cur[i] == b0[i + 1] by {
                    assert(cur[i] == before[i + 1]);
                }
                assert(cur =~= before.remove(k as int));
                lemma_remove_keeps_distinct(before, k as int);
                lemma_met_before(b0, k as int, 0, src@, src_l@);
            }
            let mut kept: Vec<Order> = Vec::new();
            let mut exec: Vec<Order> = Vec::new();
            let mut j: usize = 0;
            while j < list.len()
                invariant
                    b0 == book(old(self).orders@),
                    distinct_keys(b0),
                    lp == src@[4],
                    due_p == due_pred(src@, src_l@),
                    wait_p == waiting_pred(src@, src_l@),
                    fill == fill_at(lp),
                    start == (old(self).capital, old(self).positions@),
                    dues == due_orders(b0, src@, src_l@),
                    orders_readable(b0, src@, src_l@),
                    forall|o: Order| cost.requires((o,)),
                    forall|c: Capital, o: Order, p: Position, lp: Num| change.requires(
                        (c, o, p, lp),
                    ),
                    forall|c: Capital, o: Order, lp: Num| open.requires((c, o, lp)),
                    refused_on_short_candle(cost, start.0, dues, src@),
                    distinct_positions(self.positions@),
                    distinct_keys(book(self.orders@)),
                    distinct_keys(book(self.orders_trigger@)),
                    self.orders_trigger == old(self).orders_trigger,
                    k < b0.len(),
                    list@ == b0[k as int].1,
                    name@ == b0[k as int].0,
                    book(self.orders@).len() == b0.len() - 1,
                    forall|i: int|
                        0 <= i < k ==> #[trigger] book(self.orders@)[i] == (
                            b0[i].0,
                            left_after(b0[i].1, src@, src_l@),
                        ),
                    forall|i: int|
                        k <= i < b0.len() - 1 ==> #[trigger] book(self.orders@)[i] == b0[i + 1],
                    book(done@) == executed(b0, src@, src_l@).take(k as int),
                    j <= list@.len(),
                    kept@ == list@.take(j as int).filter(wait_p),
                    exec@ == list@.take(j as int).filter(due_p).map_values(fill),
                    prices.len() == met_before(b0, k as int, j as int, src@, src_l@).len(),
                    ledger(start, dues, prices, lp) == (self.capital, self.positions@),
                    priced_pass(cost, change, open, start, dues, prices, lp, false),
                    src@.len() <= 4 ==> prices.len() == 0,
                decreases list@.len() - j,
            {
                let ghost pre = list@.take(j as int);
                let o = list[j].clone();
                proof {
                    assert(list@.take(j + 1) =~= pre.push(o));
                    pre.lemma_filter_push(o, due_p);
                    pre.lemma_filter_push(o, wait_p);
                    assert(b0[k as int].1[j as int] == o);
                    assert(readable(b0[k as int].1[j as int], src@, src_l@));
                    lemma_met_before(b0, k as int, j as int, src@, src_l@);
                    lemma_met_before(b0, k as int, j + 1, src@, src_l@);
                }
                if is_to_execute(&o, src, src_l) {
                    let ghost n = prices.len() as int;
                    proof {
                        assert(due(b0, k as int, j as int, src@, src_l@));
                        let m = met_before(b0, k as int, j + 1, src@, src_l@);
                        assert(m[n] == o);
                        assert(dues[n] == m[n]);
                    }
                    let required = cost(o.clone());
                    match is_executable(self.capital, &o, required) {
                        Ok(()) => {},
                        Err(e) => {
                            let mut rest = kept;
                            let mut x: usize = j + 1;
                            while x < list.len()
                                invariant
                                    j < list@.len(),
                                    j + 1 <= x <= list@.len(),
                                    rest@ == pre.filter(wait_p) + list@.subrange(
                                        j + 1,
                                        x as int,
                                    ),
                                decreases list@.len() - x,
                            {
                                rest.push(list[x].clone());
                                x = x + 1;
                                assert(rest@ =~= pre.filter(wait_p) + list@.subrange(
                                    j + 1,
                                    x as int,
                                ));
                            }
                            let ghost mid = book(self.orders@);
                            self.orders.insert(k, (name, rest));
                            proof {
                                assert(list@.subrange(j + 1, list@.len() as int) =~= list@.skip(
                                    j + 1,
                                ));
                                let fin = book(self.orders@);
                                let st = stopped_at(b0, k as int, j as int, src@, src_l@);
                                assert forall|i: int| 0 <= i < b0.len() implies #[trigger] fin[i]
                                    == st[i] by {
                                    if i < k {
                                        assert(fin[i] == mid[i]);
                                    } else if i > k {
                                        assert(fin[i] == mid[i - 1]);
                                    }
                                }
                                assert(fin =~= st);
                                lemma_same_keys(b0, fin);
                                let refused = Priced {
                                    required,
                                    capital: self.capital,
                                    position: None,
                                };
                                lemma_priced_pass_push(
                                    cost,
                                    change,
                                    open,
                                    start,
                                    dues,
                                    prices,
                                    lp,
                                    refused,
                                    false,
                                );
                                let q = prices.push(refused);
                                assert(q.drop_last() =~= prices);
                                assert(q.last() == refused);
                                assert(due(b0, k as int, j as int, src@, src_l@));
                                assert(priced_pass(cost, change, open, start, dues, q, lp, true));
                            }
                            return Err(e);
                        },
                    }
                    proof {
                        if src@.len() <= 4 {
                            assert(dues[0] == o);
                            assert(num_lt(start.0.0, required));
                        }
                    }
                    let last_price = src[4];
                    let ghost p0 = self.positions@;
                    let priced = match find_position(&self.positions, o.position_idx) {
                        Some(pi) => {
                            proof {
                                lemma_position_at_unique(p0, pi as int);
                            }
                            let (capital, changed) = change(
                                self.capital,
                                o.clone(),
                                self.positions[pi].1.clone(),
                                last_price,
                            );
                            Priced { required, capital, position: Some(changed) }
                        },
                        None => {
                            let capital = open(self.capital, o.clone(), last_price);
                            Priced { required, capital, position: None }
                        },
                    };
                    proof {
                        lemma_priced_pass_push(
                            cost,
                            change,
                            open,
                            start,
                            dues,
                            prices,
                            lp,
                            priced,
                            true,
                        );
                        assert(prices.push(priced).drop_last() =~= prices);
                        prices = prices.push(priced);
                    }
                    let f = self.book_order(o, last_price, priced);
                    proof {
                        assert(pre.filter(due_p).push(list@[j as int]).map_values(fill)
                            =~= pre.filter(due_p).map_values(fill).push(f));
                    }
                    exec.push(f);
                } else {
                    kept.push(o);
                }
                j = j + 1;
            }
            proof {
                assert(list@.take(list@.len() as int) =~= list@);
                lemma_met_before(b0, k as int, list@.len() as int, src@, src_l@);
            }
            let ghost mid = book(self.orders@);
            self.orders.insert(k, (name.clone(), kept));
            let ghost dprev = book(done@);
            let ghost entry = (name@, exec@);
            done.push((name, exec));
            proof {
                assert(book(done@) =~= dprev.push(entry));
                assert(entry == executed(b0, src@, src_l@)[k as int]);
                assert(executed(b0, src@, src_l@).take(k + 1) =~= executed(b0, src@, src_l@).take(
                    k as int,
                ).push(executed(b0, src@, src_l@)[k as int]));
                let fin = book(self.orders@);
                assert forall|i: int| k + 1 <= i < b0.len() implies #[trigger] fin[i] == b0[i] by {
                    assert(fin[i] == mid[i - 1]);
                }
                assert forall|i: int| 0 <= i < k + 1 implies #[trigger] fin[i] == (
                    b0[i].0,
                    left_after(b0[i].1, src@, src_l@),
                ) by {
                    if i < k {
                        assert(fin[i] == mid[i]);
                    }
                }
                lemma_same_keys(b0, fin);
                assert(book(done@) =~= executed(b0, src@, src_l@).take(k + 1));
            }
            k = k + 1;
        }
        proof {
            assert(book(self.orders@) =~= remaining(b0, src@, src_l@));
            assert(executed(b0, src@, src_l@).take(b0.len() as int) =~= executed(b0, src@, src_l@));
            assert(b0.take(b0.len() as int) =~= b0);
        }
        Ok(done)
    }
}

/// What a successful pass leaves and executes, name by name: nothing due is
/// left behind, nothing that was not due is executed, every order goes one
/// way or the other, and every executed order is inactive and filled at the
/// close.
pub proof fn lemma_pass_splits_orders(b: Book<Order>, src: Seq<Num>, src_l: Seq<Num>, k: int)
    requires
        0 <= k < b.len(),
    ensures
        remaining(b, src, src_l)[k].0 == b[k].0,
        executed(b, src, src_l)[k].0 == b[k].0,
        remaining(b, src, src_l)[k].1.len() + executed(b, src, src_l)[k].1.len() == b[k].1.len(),
        forall|a: int|
            0 <= a < remaining(b, src, src_l)[k].1.len() ==> !to_execute(
                #[trigger] remaining(b, src, src_l)[k].1[a],
                src,
                src_l,
            ),
        forall|a: int|
            0 <= a < executed(b, src, src_l)[k].1.len() ==> {
                &&& !(#[trigger] executed(b, src, src_l)[k].1[a]).is_active
                &&& executed(b, src, src_l)[k].1[a].price == Some(src[4])
            },
{
    lemma_filter_split(b[k].1, src, src_l);
    let w = waiting_pred(src, src_l);
    assert forall|a: int| 0 <= a < b[k].1.filter(w).len() implies !to_execute(
        #[trigger] b[k].1.filter(w)[a],
        src,
        src_l,
    ) by {
        b[k].1.lemma_filter_pred(w, a);
    }
}

/// Orders split by whether they are due lose and duplicate none.
proof fn lemma_filter_split(l: Seq<Order>, src: Seq<Num>, src_l: Seq<Num>)
    ensures
        l.filter(waiting_pred(src, src_l)).len() + l.filter(due_pred(src, src_l)).len() == l.len(),
    decreases l.len(),
{
    reveal(Seq::filter);
    if l.len() > 0 {
        lemma_filter_split(l.drop_last(), src, src_l);
    }
}

/// A pass starts with nothing gone over; together with the `swept` clauses
/// of [`TradeState::execute_next`] (and a settlement, which leaves the book
/// and the place of the pass as they are), a pass that has run to its end
/// leaves no due order in the book.
pub proof fn lemma_pass_starts_swept(b: Book<Order>, src: Seq<Num>, src_l: Seq<Num>)
    ensures
        swept(b, 0, 0, src, src_l),
{
}

/// Booking an order keeps the indices of the positions distinct.
proof fn lemma_settled_distinct(
    p: Seq<(usize, Position)>,
    o: Order,
    last_price: Num,
    changed: Option<Position>,
)
    requires
        distinct_positions(p),
    ensures
        distinct_positions(settled_positions(p, o, last_price, changed)),
{
    let q = settled_positions(p, o, last_price, changed);
    if has_position(p, o.position_idx) {
        assert forall|x: int| 0 <= x < p.len() implies #[trigger] q[x].0 == p[x].0 by {}
    } else {
        assert forall|x: int, y: int|
            0 <= x < q.len() && 0 <= y < q.len() && x != y implies q[x].0 != q[y].0 by {
            if x < p.len() && y < p.len() {
                assert(q[x] == p[x] && q[y] == p[y]);
            } else if x < p.len() {
                assert(q[x] == p[x]);
            } else {
                assert(q[y] == p[y]);
            }
        }
    }
}

/// The due orders of the first names of a book come first among its due
/// orders.
proof fn lemma_due_orders_prefix(b: Book<Order>, m: int, src: Seq<Num>, src_l: Seq<Num>)
    requires
        0 <= m <= b.len(),
    ensures
        due_orders(b.take(m), src, src_l).is_prefix_of(due_orders(b, src, src_l)),
    decreases b.len(),
{
    if m == b.len() {
        assert(b.take(m) =~= b);
    } else {
        assert(b.take(m) =~= b.drop_last().take(m));
        lemma_due_orders_prefix(b.drop_last(), m, src, src_l);
        let x = due_orders(b.take(m), src, src_l);
        let y = due_orders(b.drop_last(), src, src_l);
        let z = due_orders(b, src, src_l);
        assert(z == y + b.last().1.filter(due_pred(src, src_l)));
        assert(x =~= z.subrange(0, x.len() as int));
    }
}

/// What a pass has met before a place of the book comes first among the due
/// orders of the book, and grows by the order at that place when it is due.
proof fn lemma_met_before(b: Book<Order>, k: int, a: int, src: Seq<Num>, src_l: Seq<Num>)
    requires
        0 <= k < b.len(),
        0 <= a <= b[k].1.len(),
    ensures
        met_before(b, k, a, src, src_l).is_prefix_of(due_orders(b, src, src_l)),
        met_before(b, k, 0, src, src_l) == due_orders(b.take(k), src, src_l),
        met_before(b, k, b[k].1.len() as int, src, src_l) == due_orders(b.take(k + 1), src, src_l),
        a < b[k].1.len() ==> met_before(b, k, a + 1, src, src_l) == if to_execute(
            b[k].1[a],
            src,
            src_l,
        ) {
            met_before(b, k, a, src, src_l).push(b[k].1[a])
        } else {
            met_before(b, k, a, src, src_l)
        },
{
    let l = b[k].1;
    let p = due_pred(src, src_l);
    let d = due_orders(b.take(k), src, src_l);
    assert(l.take(0) =~= Seq::<Order>::empty());
    assert(Seq::<Order>::empty().filter(p) =~= Seq::<Order>::empty()) by {
        reveal(Seq::filter);
    }
    assert(met_before(b, k, 0, src, src_l) =~= d);
    assert(l.take(l.len() as int) =~= l);
    assert(b.take(k + 1).drop_last() =~= b.take(k));
    assert(met_before(b, k, l.len() as int, src, src_l) =~= due_orders(b.take(k + 1), src, src_l));
    if a < l.len() {
        assert(l.take(a + 1) =~= l.take(a).push(l[a]));
        l.take(a).lemma_filter_push(l[a], p);
        assert(met_before(b, k, a + 1, src, src_l) =~= if to_execute(l[a], src, src_l) {
            met_before(b, k, a, src, src_l).push(l[a])
        } else {
            met_before(b, k, a, src, src_l)
        });
    }
    assert(l =~= l.take(a) + l.skip(a));
    Seq::filter_distributes_over_add(l.take(a), l.skip(a), p);
    lemma_due_orders_prefix(b, k + 1, src, src_l);
    let m = met_before(b, k, a, src, src_l);
    let w = due_orders(b.take(k + 1), src, src_l);
    let z = due_orders(b, src, src_l);
    assert(w == d + l.take(a).filter(p) + l.skip(a).filter(p));
    assert(m =~= w.subrange(0, m.len() as int));
    assert(m =~= z.subrange(0, m.len() as int));
}

/// One more entry, for the next due order, keeps a priced pass priced; it is
/// the refused one unless the order was accepted.
proof fn lemma_priced_pass_push<FR, FC, FO>(
    cost: FR,
    change: FC,
    open: FO,
    start: (Capital, Seq<(usize, Position)>),
    dues: Seq<Order>,
    prices: Seq<Priced>,
    last_price: Num,
    pr: Priced,
    accepted: bool,
) where
    FR: Fn(Order) -> Num,
    FC: Fn(Capital, Order, Position, Num) -> (Capital, Position),
    FO: Fn(Capital, Order, Num) -> Capital,

    requires
        priced_pass(cost, change, open, start, dues, prices, last_price, false),
        priced_by(
            cost,
            change,
            open,
            ledger(start, dues, prices, last_price),
            dues[prices.len() as int],
            last_price,
            pr,
            accepted,
        ),
    ensures
        priced_pass(cost, change, open, start, dues, prices.push(pr), last_price, !accepted),
{
    let q = prices.push(pr);
    assert forall|i: int| 0 <= i < q.len() implies priced_by(
        cost,
        change,
        open,
        ledger(start, dues, q.take(i), last_price),
        dues[i],
        last_price,
        #[trigger] q[i],
        !(!accepted && i == q.len() - 1),
    ) by {
        if i < prices.len() {
            assert(q.take(i) =~= prices.take(i));
            assert(q[i] == prices[i]);
        } else {
            assert(q.take(i) =~= prices);
        }
    }
}

/// What booking executed orders does to the positions: every position held
/// at the start keeps its place and its index, and stays as it was unless an
/// executed order carries its index; the positions added after them belong
/// to executed orders; the last executed order leaves a position under its
/// index; and the indices stay distinct.
pub proof fn lemma_ledger_keeps_positions(
    start: (Capital, Seq<(usize, Position)>),
    dues: Seq<Order>,
    prices: Seq<Priced>,
    last_price: Num,
)
    ensures
        ({
            let held = start.1;
            let end = ledger(start, dues, prices, last_price).1;
            &&& held.len() <= end.len()
            &&& forall|j: int| 0 <= j < held.len() ==> #[trigger] end[j].0 == held[j].0
            &&& forall|j: int|
                0 <= j < held.len() && (forall|i: int|
                    0 <= i < prices.len() ==> dues[i].position_idx != held[j].0) ==> #[trigger] end[j]
                    == held[j]
            &&& forall|j: int|
                held.len() <= j < end.len() ==> exists|i: int|
                    0 <= i < prices.len() && dues[i].position_idx == #[trigger] end[j].0
            &&& prices.len() > 0 ==> has_position(end, dues[prices.len() - 1].position_idx)
            &&& distinct_positions(held) ==> distinct_positions(end)
        }),
    decreases prices.len(),
{
    if prices.len() > 0 {
        let n = prices.len() - 1;
        let rest = prices.drop_last();
        lemma_ledger_keeps_positions(start, dues, rest, last_price);
        let held = start.1;
        let p = ledger(start, dues, rest, last_price).1;
        let o = dues[n];
        let end = ledger(start, dues, prices, last_price).1;
        assert(end == settled_positions(p, o, last_price, prices[n].position));
        if has_position(p, o.position_idx) {
            let q = position_at(p, o.position_idx);
            assert(end[q].0 == o.position_idx);
            assert forall|j: int| 0 <= j < p.len() implies #[trigger] end[j].0 == p[j].0 by {}
            assert forall|j: int|
                0 <= j < held.len() && (forall|i: int|
                    0 <= i < prices.len() ==> dues[i].position_idx != held[j].0) implies #[trigger] end[j]
                == held[j] by {
                assert(dues[n].position_idx != held[j].0);
                assert(j != q);
                assert(forall|i: int| 0 <= i < rest.len() ==> dues[i].position_idx != held[j].0);
            }
            assert forall|j: int| held.len() <= j < end.len() implies exists|i: int|
                0 <= i < prices.len() && dues[i].position_idx == #[trigger] end[j].0 by {
                assert(end[j].0 == p[j].0);
                let i = choose|i: int| 0 <= i < rest.len() && dues[i].position_idx == p[j].0;
                assert(0 <= i < prices.len() && dues[i].position_idx == end[j].0);
            }
        } else {
            assert(end[p.len() as int].0 == o.position_idx);
            assert forall|j: int| 0 <= j < p.len() implies #[trigger] end[j] == p[j] by {}
            assert forall|j: int|
                0 <= j < held.len() && (forall|i: int|
                    0 <= i < prices.len() ==> dues[i].position_idx != held[j].0) implies #[trigger] end[j]
                == held[j] by {
                assert(forall|i: int| 0 <= i < rest.len() ==> dues[i].position_idx != held[j].0);
            }
            assert forall|j: int| held.len() <= j < end.len() implies exists|i: int|
                0 <= i < prices.len() && dues[i].position_idx == #[trigger] end[j].0 by {
                if j < p.len() {
                    assert(end[j] == p[j]);
                    let i = choose|i: int| 0 <= i < rest.len() && dues[i].position_idx == p[j].0;
                    assert(0 <= i < prices.len() && dues[i].position_idx == end[j].0);
                } else {
                    assert(dues[n].position_idx == end[j].0);
                }
            }
        }
        if distinct_positions(held) {
            lemma_settled_distinct(p, o, last_price, prices[n].position);
        }
    }
}

/// An executed order whose index no position held at the start and no other
/// executed order carries leaves the position it opened at the close:
/// `opened(o, last_price)`, as [`crate::types::Position::new`] builds it.
pub proof fn lemma_ledger_opens(
    start: (Capital, Seq<(usize, Position)>),
    dues: Seq<Order>,
    prices: Seq<Priced>,
    last_price: Num,
    i: int,
)
    requires
        distinct_positions(start.1),
        0 <= i < prices.len(),
        !has_position(start.1, dues[i].position_idx),
        forall|i2: int|
            0 <= i2 < prices.len() && i2 != i ==> dues[i2].position_idx != dues[i].position_idx,
    ensures
        ({
            let end = ledger(start, dues, prices, last_price).1;
            let idx = dues[i].position_idx;
            &&& has_position(end, idx)
            &&& end[position_at(end, idx)].1 == opened(dues[i], last_price)
        }),
    decreases prices.len(),
{
    let n = prices.len() - 1;
    let rest = prices.drop_last();
    let idx = dues[i].position_idx;
    let p = ledger(start, dues, rest, last_price).1;
    let o = dues[n];
    let end = ledger(start, dues, prices, last_price).1;
    assert(end == settled_positions(p, o, last_price, prices[n].position));
    lemma_ledger_keeps_positions(start, dues, rest, last_price);
    lemma_ledger_keeps_positions(start, dues, prices, last_price);
    if i == n {
        if has_position(p, idx) {
            let j = position_at(p, idx);
            if j < start.1.len() {
                assert(p[j].0 == start.1[j].0);
                assert(0 <= j < start.1.len() && start.1[j].0 == idx);
            } else {
                let i2 = choose|i2: int| 0 <= i2 < rest.len() && dues[i2].position_idx == p[j].0;
                assert(dues[i2].position_idx == idx);
            }
        }
        let last = p.len() as int;
        assert(end[last] == (idx, opened(o, last_price)));
        lemma_position_at_unique(end, last);
    } else {
        assert forall|i2: int|
            0 <= i2 < rest.len() && i2 != i implies dues[i2].position_idx
            != dues[i].position_idx by {}
        lemma_ledger_opens(start, dues, rest, last_price, i);
        let q0 = position_at(p, idx);
        assert(o.position_idx != idx);
        if has_position(p, o.position_idx) {
            assert(position_at(p, o.position_idx) != q0);
        }
        assert(end[q0] == p[q0]);
        lemma_position_at_unique(end, q0);
    }
}

} // verus!

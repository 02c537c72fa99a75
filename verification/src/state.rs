//! The state of a trading account: capital, pending orders, conditional
//! orders and positions, and the steps that move orders through it.
use vstd::prelude::*;

use crate::book::{
    book, distinct_keys, find_key, has_key, key_at, lemma_key_at_unique, lemma_push_at, lookup,
    names_distinct, push_at, push_to, Book,
};
use crate::num::{num_le, Num};
use crate::types::{Capital, Order, OrderWrap, Position, Trigger};
use crate::utils::{crossed_in, price_column, price_is_crossed_direction};

verus! {

/// An order that waits for its trigger.
pub type Conditional = (Order, Trigger);

/// What one strategy hands to [`TradeState::step`]: perhaps an order, and
/// whether the strategy trades at all.
pub type Offer = (String, (Option<OrderWrap>, bool));

/// Capital, orders and positions of one account.
///
/// Entries are kept in the order in which their names or indices first
/// appeared, and `==` compares them in that order.
#[derive(Debug, PartialEq)]
pub struct TradeState {
    pub capital: Capital,
    /// Orders waiting for execution, per strategy.
    pub orders: Vec<(String, Vec<Order>)>,
    /// Conditional orders waiting for their trigger, per strategy.
    pub orders_trigger: Vec<(String, Vec<Conditional>)>,
    /// Positions by their index.
    pub positions: Vec<(usize, Position)>,
}

/// No position index occurs twice.
pub open spec fn distinct_positions(p: Seq<(usize, Position)>) -> bool {
    forall|i: int, j: int| 0 <= i < p.len() && 0 <= j < p.len() && i != j ==> p[i].0 != p[j].0
}

/// The offer places an order: the strategy trades and handed one over.
pub open spec fn offers_order(e: Offer) -> bool {
    e.1.1 && e.1.0 is Some
}

/// Every conditional order that is offered carries its trigger.
pub open spec fn offers_complete(input: Seq<Offer>) -> bool {
    forall|i: int|
        0 <= i < input.len() && offers_order(#[trigger] input[i]) && input[i].1.0->0.is_trigger
            ==> input[i].1.0->0.trigger is Some
}

/// The books of orders and conditional orders after the offers `input` have
/// been placed, one after the other.
pub open spec fn placed(
    orders: Book<Order>,
    trig: Book<Conditional>,
    input: Seq<Offer>,
) -> (Book<Order>, Book<Conditional>)
    decreases input.len(),
{
    if input.len() == 0 {
        (orders, trig)
    } else {
        let (o, t) = placed(orders, trig, input.drop_last());
        let e = input.last();
        if offers_order(e) {
            let w = e.1.0->0;
            if w.is_trigger {
                (o, push_at(t, e.0@, (w.order, w.trigger->0)))
            } else {
                (push_at(o, e.0@, w.order), t)
            }
        } else {
            (o, t)
        }
    }
}

/// The trigger of a conditional order fires on the candle `src`, `src_l`
/// being the candle before it.
pub open spec fn fires(e: Conditional, src: Seq<Num>, src_l: Seq<Num>) -> bool {
    crossed_in(e.1.price, e.1.direction, src, src_l, e.1.trigger_by@)
}

pub open spec fn fire_pred(src: Seq<Num>, src_l: Seq<Num>) -> spec_fn(Conditional) -> bool {
    |e: Conditional| fires(e, src, src_l)
}

pub open spec fn wait_pred(src: Seq<Num>, src_l: Seq<Num>) -> spec_fn(Conditional) -> bool {
    |e: Conditional| !fires(e, src, src_l)
}

/// The conditional orders of `list` whose trigger did not fire, in order.
pub open spec fn still_waiting(list: Seq<Conditional>, src: Seq<Num>, src_l: Seq<Num>) -> Seq<
    Conditional,
> {
    list.filter(wait_pred(src, src_l))
}

/// The orders of `list` whose trigger fired, in order.
pub open spec fn released(list: Seq<Conditional>, src: Seq<Num>, src_l: Seq<Num>) -> Seq<Order> {
    list.filter(fire_pred(src, src_l)).map_values(|e: Conditional| e.0)
}

/// The books after the conditional orders whose trigger fired have joined the
/// orders of their strategy. Conditional orders of a strategy that has no
/// entry among the orders stay where they are, fired or not.
pub open spec fn triggered(
    orders: Book<Order>,
    trig: Book<Conditional>,
    src: Seq<Num>,
    src_l: Seq<Num>,
) -> (Book<Order>, Book<Conditional>) {
    (
        orders.map_values(
            |e: (Seq<char>, Seq<Order>)|
                (e.0, if has_key(trig, e.0) {
                    e.1 + released(lookup(trig, e.0), src, src_l)
                } else {
                    e.1
                }),
        ),
        trig.map_values(
            |e: (Seq<char>, Seq<Conditional>)|
                (e.0, if has_key(orders, e.0) {
                    still_waiting(e.1, src, src_l)
                } else {
                    e.1
                }),
        ),
    )
}

/// The candles hold every price that the triggers to be tested read.
pub open spec fn triggers_readable(
    orders: Book<Order>,
    trig: Book<Conditional>,
    src: Seq<Num>,
    src_l: Seq<Num>,
) -> bool {
    forall|i: int, j: int|
        0 <= i < trig.len() && has_key(orders, trig[i].0) && 0 <= j < trig[i].1.len() ==> {
            &&& price_column(#[trigger] trig[i].1[j].1.trigger_by@) < src.len()
            &&& price_column(trig[i].1[j].1.trigger_by@) < src_l.len()
        }
}

/// Splits conditional orders into those still waiting and the orders of
/// those whose trigger fired.
fn split_fired(list: &Vec<Conditional>, src: &[Num], src_l: &[Num]) -> (r: (
    Vec<Conditional>,
    Vec<Order>,
))
    requires
        forall|j: int|
            0 <= j < list@.len() ==> {
                &&& price_column(#[trigger] list@[j].1.trigger_by@) < src@.len()
                &&& price_column(list@[j].1.trigger_by@) < src_l@.len()
            },
    ensures
        r.0@ == still_waiting(list@, src@, src_l@),
        r.1@ == released(list@, src@, src_l@),
{
    let ghost fp = fire_pred(src@, src_l@);
    let ghost wp = wait_pred(src@, src_l@);
    let ghost first = |e: Conditional| e.0;
    let mut kept: Vec<Conditional> = Vec::new();
    let mut moved: Vec<Order> = Vec::new();
    let mut x: usize = 0;
    while x < list.len()
        invariant
            x <= list@.len(),
            forall|j: int|
                0 <= j < list@.len() ==> {
                    &&& price_column(#[trigger] list@[j].1.trigger_by@) < src@.len()
                    &&& price_column(list@[j].1.trigger_by@) < src_l@.len()
                },
            fp == fire_pred(src@, src_l@),
            wp == wait_pred(src@, src_l@),
            first == (|e: Conditional| e.0),
            kept@ == list@.take(x as int).filter(wp),
            moved@ == list@.take(x as int).filter(fp).map_values(first),
        decreases list@.len() - x,
    {
        let e = &list[x];
        let ghost before = list@.take(x as int);
        assert(list@.take(x + 1) =~= before.push(list@[x as int]));
        let f = price_is_crossed_direction(
            e.1.price,
            e.1.direction,
            src,
            src_l,
            e.1.trigger_by.as_str(),
        );
        assert(fp(*e) == f);
        assert(wp(*e) == !f);
        proof {
            before.lemma_filter_push(*e, fp);
            before.lemma_filter_push(*e, wp);
        }
        if f {
            proof {
                assert(before.filter(fp).push(*e).map_values(first) =~= before.filter(
                    fp,
                ).map_values(first).push(e.0));
            }
            moved.push(e.0.clone());
        } else {
            kept.push((e.0.clone(), e.1.clone()));
        }
        x = x + 1;
    }
    assert(list@.take(list@.len() as int) =~= list@);
    (kept, moved)
}


pub open spec fn order_active() -> spec_fn(Order) -> bool {
    |o: Order| o.is_active
}

pub open spec fn conditional_active() -> spec_fn(Conditional) -> bool {
    |e: Conditional| e.0.is_active
}

pub open spec fn position_active() -> spec_fn((usize, Position)) -> bool {
    |e: (usize, Position)| e.1.is_active
}

/// A book with only its active items left under each name.
pub open spec fn cleared<V>(b: Book<V>, keep: spec_fn(V) -> bool) -> Book<V> {
    b.map_values(|e: (Seq<char>, Seq<V>)| (e.0, e.1.filter(keep)))
}

/// The active orders of `list`, in order.
fn active_orders(list: &Vec<Order>) -> (r: Vec<Order>)
    ensures
        r@ == list@.filter(order_active()),
{
    let ghost keep = order_active();
    let mut r: Vec<Order> = Vec::new();
    let mut x: usize = 0;
    while x < list.len()
        invariant
            x <= list@.len(),
            keep == order_active(),
            r@ == list@.take(x as int).filter(keep),
        decreases list@.len() - x,
    {
        proof {
            assert(list@.take(x + 1) =~= list@.take(x as int).push(list@[x as int]));
            list@.take(x as int).lemma_filter_push(list@[x as int], keep);
        }
        if list[x].is_active {
            r.push(list[x].clone());
        }
        x = x + 1;
    }
    assert(list@.take(list@.len() as int) =~= list@);
    r
}

/// The conditional orders of `list` whose order is active, in order.
fn active_conditionals(list: &Vec<Conditional>) -> (r: Vec<Conditional>)
    ensures
        r@ == list@.filter(conditional_active()),
{
    let ghost keep = conditional_active();
    let mut r: Vec<Conditional> = Vec::new();
    let mut x: usize = 0;
    while x < list.len()
        invariant
            x <= list@.len(),
            keep == conditional_active(),
            r@ == list@.take(x as int).filter(keep),
        decreases list@.len() - x,
    {
        proof {
            assert(list@.take(x + 1) =~= list@.take(x as int).push(list@[x as int]));
            list@.take(x as int).lemma_filter_push(list@[x as int], keep);
        }
        if list[x].0.is_active {
            r.push((list[x].0.clone(), list[x].1.clone()));
        }
        x = x + 1;
    }
    assert(list@.take(list@.len() as int) =~= list@);
    r
}

/// The active positions of `list`, in order.
fn active_positions(list: &Vec<(usize, Position)>) -> (r: Vec<(usize, Position)>)
    ensures
        r@ == list@.filter(position_active()),
{
    let ghost keep = position_active();
    let mut r: Vec<(usize, Position)> = Vec::new();
    let mut x: usize = 0;
    while x < list.len()
        invariant
            x <= list@.len(),
            keep == position_active(),
            r@ == list@.take(x as int).filter(keep),
        decreases list@.len() - x,
    {
        proof {
            assert(list@.take(x + 1) =~= list@.take(x as int).push(list@[x as int]));
            list@.take(x as int).lemma_filter_push(list@[x as int], keep);
        }
        if list[x].1.is_active {
            r.push((list[x].0, list[x].1.clone()));
        }
        x = x + 1;
    }
    assert(list@.take(list@.len() as int) =~= list@);
    r
}


/// Whether no position index occurs twice.
fn positions_distinct(p: &Vec<(usize, Position)>) -> (r: bool)
    ensures
        r == distinct_positions(p@),
{
    let n = p.len();
    let mut i: usize = 0;
    while i < n
        invariant
            n == p@.len(),
            i <= n,
            forall|x: int, y: int| 0 <= x < i && x < y < n ==> p@[x].0 != p@[y].0,
        decreases n - i,
    {
        let mut j: usize = i + 1;
        while j < n
            invariant
                n == p@.len(),
                i < n,
                i + 1 <= j <= n,
                forall|x: int, y: int| 0 <= x < i && x < y < n ==> p@[x].0 != p@[y].0,
                forall|y: int| i < y < j ==> p@[i as int].0 != p@[y].0,
            decreases n - j,
        {
            if p[i].0 == p[j].0 {
                return false;
            }
            j = j + 1;
        }
        i = i + 1;
    }
    assert forall|x: int, y: int| 0 <= x < n && 0 <= y < n && x != y implies p@[x].0 != p@[y].0 by {
        if x > y {
            assert(p@[y].0 != p@[x].0);
        }
    }
    true
}

impl TradeState {
    /// Each book has distinct names, and positions distinct indices.
    pub open spec fn wf(&self) -> bool {
        &&& distinct_keys(book(self.orders@))
        &&& distinct_keys(book(self.orders_trigger@))
        &&& distinct_positions(self.positions@)
    }

    /// Whether each book has distinct names and the positions distinct
    /// indices, which every step of the account requires.
    pub fn is_well_formed(&self) -> (r: bool)
        ensures
            r == self.wf(),
    {
        names_distinct(&self.orders) && names_distinct(&self.orders_trigger) && positions_distinct(
            &self.positions,
        )
    }

    /// A state with the given capital and nothing pending.
    pub fn new(capital: Capital) -> (r: Self)
        ensures
            r.wf(),
            r.capital == capital,
            r.orders@.len() == 0,
            r.orders_trigger@.len() == 0,
            r.positions@.len() == 0,
    {
        TradeState {
            capital,
            orders: Vec::new(),
            orders_trigger: Vec::new(),
            positions: Vec::new(),
        }
    }

    /// Places the orders of the strategies that trade: a conditional order
    /// joins the conditional orders under the strategy's name, any other
    /// order the orders under that name.
    pub fn step(&mut self, orders: &Vec<Offer>)
        requires
            old(self).wf(),
            offers_complete(orders@),
        ensures
            final(self).wf(),
            final(self).capital == old(self).capital,
            final(self).positions == old(self).positions,
            (book(final(self).orders@), book(final(self).orders_trigger@)) == placed(
                book(old(self).orders@),
                book(old(self).orders_trigger@),
                orders@,
            ),
    {
        let ghost o0 = book(self.orders@);
        let ghost t0 = book(self.orders_trigger@);
        let mut i: usize = 0;
        while i < orders.len()
            invariant
                i <= orders@.len(),
                offers_complete(orders@),
                self.wf(),
                self.capital == old(self).capital,
                self.positions == old(self).positions,
                o0 == book(old(self).orders@),
                t0 == book(old(self).orders_trigger@),
                (book(self.orders@), book(self.orders_trigger@)) == placed(
                    o0,
                    t0,
                    orders@.take(i as int),
                ),
            decreases orders@.len() - i,
        {
            let entry = &orders[i];
            assert(orders@.take(i + 1).drop_last() =~= orders@.take(i as int));
            assert(orders@.take(i + 1).last() == orders@[i as int]);
            if entry.1.1 {
                match &entry.1.0 {
                    Some(w) => {
                        if w.is_trigger {
                            assert(offers_order(orders@[i as int]));
                            match &w.trigger {
                                Some(t) => {
                                    push_to(
                                        &mut self.orders_trigger,
                                        &entry.0,
                                        (w.order.clone(), t.clone()),
                                    );
                                },
                                None => {},
                            }
                        } else {
                            push_to(&mut self.orders, &entry.0, w.order.clone());
                        }
                    },
                    None => {},
                }
            }
            i = i + 1;
        }
        assert(orders@.take(orders@.len() as int) =~= orders@);
    }
    /// Moves the conditional orders whose trigger fired on the candle `src`
    /// (`src_l` the candle before it) to the end of the orders of their
    /// strategy, keeping their order. Only strategies that already have an
    /// entry among the orders are looked at.
    pub fn triggers_to_orders(&mut self, src: &[Num], src_l: &[Num])
        requires
            old(self).wf(),
            triggers_readable(book(old(self).orders@), book(old(self).orders_trigger@), src@, src_l@),
        ensures
            final(self).wf(),
            final(self).capital == old(self).capital,
            final(self).positions == old(self).positions,
            (book(final(self).orders@), book(final(self).orders_trigger@)) == triggered(
                book(old(self).orders@),
                book(old(self).orders_trigger@),
                src@,
                src_l@,
            ),
    {
        let ghost o0 = book(self.orders@);
        let ghost t0 = book(self.orders_trigger@);
        let ghost expect = triggered(o0, t0, src@, src_l@);
        let mut i: usize = 0;
        while i < self.orders_trigger.len()
            invariant
                o0 == book(old(self).orders@),
                t0 == book(old(self).orders_trigger@),
                expect == triggered(o0, t0, src@, src_l@),
                distinct_keys(o0),
                distinct_keys(t0),
                triggers_readable(o0, t0, src@, src_l@),
                i <= t0.len(),
                self.capital == old(self).capital,
                self.positions == old(self).positions,
                book(self.orders_trigger@).len() == t0.len(),
                book(self.orders@).len() == o0.len(),
                forall|x: int| 0 <= x < i ==> #[trigger] book(self.orders_trigger@)[x] == expect.1[x],
                forall|x: int| i <= x < t0.len() ==> #[trigger] book(self.orders_trigger@)[x] == t0[x],
                forall|j: int|
                    0 <= j < o0.len() ==> #[trigger] book(self.orders@)[j] == (
                        o0[j].0,
                        if has_key(t0, o0[j].0) && key_at(t0, o0[j].0) < i {
                            o0[j].1 + released(lookup(t0, o0[j].0), src@, src_l@)
                        } else {
                            o0[j].1
                        },
                    ),
            decreases t0.len() - i,
        {
            let found = find_key(&self.orders, self.orders_trigger[i].0.as_str());
            proof {
                lemma_key_at_unique(t0, i as int);
                assert(book(self.orders_trigger@)[i as int] == t0[i as int]);
            }
            match found {
                Some(j) => {
                    proof {
                        assert(book(self.orders@)[j as int].0 == o0[j as int].0);
                        assert(has_key(o0, t0[i as int].0));
                    }
                    let ghost ob = book(self.orders@);
                    let ghost tb = book(self.orders_trigger@);
                    let (k, list) = self.orders_trigger.remove(i);
                    proof {
                        assert(list@ == t0[i as int].1);
                        assert forall|jj: int| 0 <= jj < list@.len() implies {
                            &&& price_column(#[trigger] list@[jj].1.trigger_by@) < src@.len()
                            &&& price_column(list@[jj].1.trigger_by@) < src_l@.len()
                        } by {
                            assert(t0[i as int].1[jj] == list@[jj]);
                        }
                    }
                    let (kept, mut moved) = split_fired(&list, src, src_l);
                    self.orders_trigger.insert(i, (k, kept));
                    proof {
                        assert(book(self.orders_trigger@) =~= tb.update(
                            i as int,
                            (t0[i as int].0, still_waiting(t0[i as int].1, src@, src_l@)),
                        ));
                        assert(lookup(t0, o0[j as int].0) == t0[i as int].1);
                    }
                    let (ok, mut olist) = self.orders.remove(j);
                    olist.append(&mut moved);
                    self.orders.insert(j, (ok, olist));
                    proof {
                        assert(book(self.orders@) =~= ob.update(
                            j as int,
                            (ob[j as int].0, ob[j as int].1 + released(t0[i as int].1, src@, src_l@)),
                        ));
                        assert forall|jj: int| 0 <= jj < o0.len() implies #[trigger] book(
                            self.orders@,
                        )[jj] == (
                            o0[jj].0,
                            if has_key(t0, o0[jj].0) && key_at(t0, o0[jj].0) < i + 1 {
                                o0[jj].1 + released(lookup(t0, o0[jj].0), src@, src_l@)
                            } else {
                                o0[jj].1
                            },
                        ) by {
                            if jj != j {
                                if has_key(t0, o0[jj].0) && key_at(t0, o0[jj].0) == i {
                                    lemma_key_at_unique(o0, jj);
                                    lemma_key_at_unique(o0, j as int);
                                }
                            }
                        }
                    }
                },
                None => {
                    proof {
                        assert forall|jj: int| 0 <= jj < o0.len() implies o0[jj].0 != t0[i as int].0 by {
                            assert(book(self.orders@)[jj].0 == o0[jj].0);
                        }
                        assert(!has_key(o0, t0[i as int].0));
                    }
                },
            }
            i = i + 1;
        }
        proof {
            assert(book(self.orders_trigger@) =~= expect.1);
            assert forall|j: int| 0 <= j < o0.len() implies #[trigger] book(self.orders@)[j]
                == expect.0[j] by {
                if has_key(t0, o0[j].0) {
                    let x = key_at(t0, o0[j].0);
                    assert(0 <= x < t0.len());
                }
            }
            assert(book(self.orders@) =~= expect.0);
            assert forall|a: int, b: int|
                0 <= a < t0.len() && 0 <= b < t0.len() && a != b implies book(
                    self.orders_trigger@,
                )[a].0 != book(self.orders_trigger@)[b].0 by {
                assert(book(self.orders_trigger@)[a].0 == t0[a].0);
                assert(book(self.orders_trigger@)[b].0 == t0[b].0);
            }
            assert forall|a: int, b: int|
                0 <= a < o0.len() && 0 <= b < o0.len() && a != b implies book(
                    self.orders@,
                )[a].0 != book(self.orders@)[b].0 by {
                assert(book(self.orders@)[a].0 == o0[a].0);
                assert(book(self.orders@)[b].0 == o0[b].0);
            }
        }
    }
    /// Drops executed or cancelled orders, conditional orders and closed
    /// positions; the names of the books stay.
    pub fn clear(&mut self)
        requires
            old(self).wf(),
        ensures
            final(self).wf(),
            final(self).capital == old(self).capital,
            book(final(self).orders@) == cleared(book(old(self).orders@), order_active()),
            book(final(self).orders_trigger@) == cleared(
                book(old(self).orders_trigger@),
                conditional_active(),
            ),
            final(self).positions@ == old(self).positions@.filter(position_active()),
    {
        let ghost o0 = book(self.orders@);
        let ghost t0 = book(self.orders_trigger@);
        let ghost p0 = self.positions@;
        let mut orders: Vec<(String, Vec<Order>)> = Vec::new();
        let mut taken: Vec<(String, Vec<Order>)> = Vec::new();
        std::mem::swap(&mut taken, &mut self.orders);
        let mut i: usize = 0;
        let n = taken.len();
        while i < n
            invariant
                n == taken@.len(),
                i <= n,
                o0 == book(taken@),
                book(orders@) =~= cleared(o0, order_active()).take(i as int),
            decreases n - i,
        {
            let key = taken[i].0.clone();
            let kept = active_orders(&taken[i].1);
            let ghost prev = book(orders@);
            orders.push((key, kept));
            proof {
                let c = cleared(book(taken@), order_active());
                assert(c[i as int] == (book(taken@)[i as int].0, book(taken@)[i as int].1.filter(order_active())));
                assert(c.take(i + 1) =~= c.take(i as int).push(c[i as int]));
                assert(book(orders@) =~= prev.push(c[i as int]));
            }
            i = i + 1;
        }
        self.orders = orders;
        let mut trig: Vec<(String, Vec<Conditional>)> = Vec::new();
        let mut taken_t: Vec<(String, Vec<Conditional>)> = Vec::new();
        std::mem::swap(&mut taken_t, &mut self.orders_trigger);
        let mut i: usize = 0;
        let n = taken_t.len();
        while i < n
            invariant
                n == taken_t@.len(),
                i <= n,
                t0 == book(taken_t@),
                book(trig@) =~= cleared(t0, conditional_active()).take(i as int),
            decreases n - i,
        {
            let key = taken_t[i].0.clone();
            let kept = active_conditionals(&taken_t[i].1);
            let ghost prev = book(trig@);
            trig.push((key, kept));
            proof {
                let c = cleared(book(taken_t@), conditional_active());
                assert(c[i as int] == (book(taken_t@)[i as int].0, book(taken_t@)[i as int].1.filter(conditional_active())));
                assert(c.take(i + 1) =~= c.take(i as int).push(c[i as int]));
                assert(book(trig@) =~= prev.push(c[i as int]));
            }
            i = i + 1;
        }
        self.orders_trigger = trig;
        self.positions = active_positions(&self.positions);
        proof {
            assert(cleared(o0, order_active()).take(o0.len() as int) =~= cleared(o0, order_active()));
            assert(cleared(t0, conditional_active()).take(t0.len() as int) =~= cleared(t0, conditional_active()));
            let q = self.positions@;
            assert forall|a: int, b: int|
                0 <= a < q.len() && 0 <= b < q.len() && a != b implies q[a].0 != q[b].0 by {
                lemma_filter_distinct(p0, position_active(), a, b);
            }
        }
    }
}

/// Placing offers keeps the names of each book distinct and never removes or
/// reorders what was pending: the orders under any name before the step are
/// a prefix of those after it.
pub proof fn lemma_placed_keeps_pending(
    orders: Book<Order>,
    trig: Book<Conditional>,
    input: Seq<Offer>,
    k: Seq<char>,
)
    requires
        distinct_keys(orders),
        distinct_keys(trig),
    ensures
        distinct_keys(placed(orders, trig, input).0),
        distinct_keys(placed(orders, trig, input).1),
        lookup(orders, k).is_prefix_of(lookup(placed(orders, trig, input).0, k)),
        lookup(trig, k).is_prefix_of(lookup(placed(orders, trig, input).1, k)),
    decreases input.len(),
{
    if input.len() > 0 {
        lemma_placed_keeps_pending(orders, trig, input.drop_last(), k);
        let (o, t) = placed(orders, trig, input.drop_last());
        let e = input.last();
        if offers_order(e) {
            let w = e.1.0->0;
            if w.is_trigger {
                lemma_push_at(t, e.0@, (w.order, w.trigger->0), k);
            } else {
                lemma_push_at(o, e.0@, w.order, k);
            }
        }
    }
}

/// Splitting conditional orders by their trigger loses and duplicates
/// nothing: the orders released and those still waiting together are as many
/// as there were, each released order had a trigger that fired and each
/// waiting one a trigger that did not.
pub proof fn lemma_triggers_conserve(list: Seq<Conditional>, src: Seq<Num>, src_l: Seq<Num>)
    ensures
        still_waiting(list, src, src_l).len() + released(list, src, src_l).len() == list.len(),
        forall|i: int|
            0 <= i < still_waiting(list, src, src_l).len() ==> !fires(
                #[trigger] still_waiting(list, src, src_l)[i],
                src,
                src_l,
            ),
        forall|i: int|
            0 <= i < list.filter(fire_pred(src, src_l)).len() ==> fires(
                #[trigger] list.filter(fire_pred(src, src_l))[i],
                src,
                src_l,
            ),
    decreases list.len(),
{
    reveal(Seq::filter);
    broadcast use vstd::seq_lib::group_filter_ensures;
    if list.len() > 0 {
        lemma_triggers_conserve(list.drop_last(), src, src_l);
    }
    let fp = fire_pred(src, src_l);
    let wp = wait_pred(src, src_l);
    assert forall|i: int| 0 <= i < list.filter(wp).len() implies !fires(
        #[trigger] list.filter(wp)[i],
        src,
        src_l,
    ) by {
        list.lemma_filter_pred(wp, i);
    }
    assert forall|i: int| 0 <= i < list.filter(fp).len() implies fires(
        #[trigger] list.filter(fp)[i],
        src,
        src_l,
    ) by {
        list.lemma_filter_pred(fp, i);
    }
}

/// Filtering twice by the same test filters no more than once.
pub proof fn lemma_filter_twice<A>(s: Seq<A>, keep: spec_fn(A) -> bool)
    ensures
        s.filter(keep).filter(keep) == s.filter(keep),
    decreases s.len(),
{
    reveal(Seq::filter);
    if s.len() > 0 {
        lemma_filter_twice(s.drop_last(), keep);
        let d = s.drop_last().filter(keep);
        if keep(s.last()) {
            assert(d.push(s.last()).drop_last() =~= d);
        }
    }
}

/// Clearing a book twice clears no more than clearing it once, and what is
/// left is all active.
pub proof fn lemma_cleared_idempotent<V>(b: Book<V>, keep: spec_fn(V) -> bool)
    ensures
        cleared(cleared(b, keep), keep) == cleared(b, keep),
        forall|k: int, a: int|
            0 <= k < b.len() && 0 <= a < cleared(b, keep)[k].1.len() ==> keep(
                #[trigger] cleared(b, keep)[k].1[a],
            ),
{
    let c = cleared(b, keep);
    assert forall|k: int| 0 <= k < b.len() implies #[trigger] cleared(c, keep)[k] == c[k] by {
        lemma_filter_twice(b[k].1, keep);
    }
    assert(cleared(c, keep) =~= c);
    assert forall|k: int, a: int|
        0 <= k < b.len() && 0 <= a < c[k].1.len() implies keep(#[trigger] c[k].1[a]) by {
        b[k].1.lemma_filter_pred(keep, a);
    }
}

/// Offers of strategies that do not trade, or that hand over nothing, change
/// nothing.
pub proof fn lemma_placed_idle(orders: Book<Order>, trig: Book<Conditional>, input: Seq<Offer>)
    requires
        forall|i: int| 0 <= i < input.len() ==> !offers_order(#[trigger] input[i]),
    ensures
        placed(orders, trig, input) == (orders, trig),
    decreases input.len(),
{
    if input.len() > 0 {
        assert(!offers_order(input[input.len() - 1]));
        lemma_placed_idle(orders, trig, input.drop_last());
    }
}

/// Filtering keeps distinct position indices distinct.
proof fn lemma_filter_distinct(
    p: Seq<(usize, Position)>,
    keep: spec_fn((usize, Position)) -> bool,
    a: int,
    b: int,
)
    requires
        distinct_positions(p),
        0 <= a < p.filter(keep).len(),
        0 <= b < p.filter(keep).len(),
        a != b,
    ensures
        p.filter(keep)[a].0 != p.filter(keep)[b].0,
    decreases p.len(),
{
    reveal(Seq::filter);
    let q = p.filter(keep);
    let d = p.drop_last();
    assert(distinct_positions(d)) by {
        assert forall|i: int, j: int| 0 <= i < d.len() && 0 <= j < d.len() && i != j implies d[i].0 != d[j].0 by {
            assert(d[i] == p[i] && d[j] == p[j]);
        }
    }
    if keep(p.last()) {
        let dl = d.filter(keep);
        assert(q == dl.push(p.last()));
        if a < dl.len() && b < dl.len() {
            lemma_filter_distinct(d, keep, a, b);
        } else {
            let x = if a < dl.len() { a } else { b };
            assert(dl.contains(dl[x]));
            d.lemma_filter_contains_rev(keep, dl[x]);
            let w = choose|w: int| 0 <= w < d.len() && d[w] == dl[x];
            assert(p[w] == d[w]);
            assert(p[p.len() - 1] == p.last());
        }
    } else {
        lemma_filter_distinct(d, keep, a, b);
    }
}

/// An item of `s` stays in `s.filter(keep)` exactly when `keep` holds of it,
/// and the filter holds nothing that was not in `s`.
proof fn lemma_filter_keeps_exactly<A>(s: Seq<A>, keep: spec_fn(A) -> bool, e: A)
    ensures
        s.contains(e) ==> (s.filter(keep).contains(e) <==> keep(e)),
        s.filter(keep).contains(e) ==> s.contains(e) && keep(e),
{
    if s.filter(keep).contains(e) {
        s.lemma_filter_contains_rev(keep, e);
        #[allow(deprecated)]
        s.filter_lemma(keep);
        let m = choose|m: int| 0 <= m < s.filter(keep).len() && s.filter(keep)[m] == e;
        assert(keep(s.filter(keep)[m]));
    }
    if s.contains(e) && keep(e) {
        let j = choose|j: int| 0 <= j < s.len() && s[j] == e;
        s.lemma_filter_contains(keep, j);
    }
}

/// A conditional order of a strategy that has orders is released exactly
/// when the price that its trigger reads crossed the trigger price in the
/// trigger's own direction: upwards (`direction` 1) when the price of the
/// candle before is at most the trigger price and the current one at least
/// it, downwards (any other direction) when the current price is at most the
/// trigger price and the one before at least it. A released order joins the
/// orders of its strategy; one not released keeps waiting.
pub proof fn lemma_trigger_fires_in_its_direction(
    orders: Book<Order>,
    trig: Book<Conditional>,
    src: Seq<Num>,
    src_l: Seq<Num>,
    i: int,
    e: Conditional,
)
    requires
        distinct_keys(trig),
        0 <= i < trig.len(),
        trig[i].1.contains(e),
        has_key(orders, trig[i].0),
    ensures
        ({
            let col = price_column(e.1.trigger_by@);
            let crossed_now = if e.1.direction == 1 {
                num_le(src_l[col], e.1.price) && num_le(e.1.price, src[col])
            } else {
                num_le(src[col], e.1.price) && num_le(e.1.price, src_l[col])
            };
            let after = triggered(orders, trig, src, src_l);
            &&& after.1[i].1.contains(e) <==> !crossed_now
            &&& crossed_now ==> after.0[key_at(orders, trig[i].0)].1.contains(e.0)
        }),
{
    let l = trig[i].1;
    let fp = fire_pred(src, src_l);
    let wp = wait_pred(src, src_l);
    lemma_filter_keeps_exactly(l, wp, e);
    lemma_filter_keeps_exactly(l, fp, e);
    lemma_key_at_unique(trig, i);
    let after = triggered(orders, trig, src, src_l);
    assert(after.1[i].1 == still_waiting(l, src, src_l));
    if fires(e, src, src_l) {
        let first = |x: Conditional| x.0;
        let f = l.filter(fp);
        let m = choose|m: int| 0 <= m < f.len() && f[m] == e;
        let ka = key_at(orders, trig[i].0);
        let ob = orders[ka].1;
        assert(orders[ka].0 == trig[i].0);
        assert(lookup(trig, trig[i].0) == l);
        assert(after.0[ka].1 == ob + released(l, src, src_l));
        assert(released(l, src, src_l)[m] == e.0);
        assert(after.0[ka].1[ob.len() + m] == e.0);
    }
}

/// Clearing keeps, under every name, exactly the active orders and the
/// conditional orders whose order is active, whatever else they hold, and
/// exactly the active positions; it adds nothing.
pub proof fn lemma_clear_keeps_exactly_active(
    orders: Book<Order>,
    trig: Book<Conditional>,
    positions: Seq<(usize, Position)>,
)
    ensures
        forall|i: int, o: Order|
            0 <= i < orders.len() ==> (#[trigger] cleared(orders, order_active())[i].1.contains(o)
                <==> orders[i].1.contains(o) && o.is_active),
        forall|i: int, e: Conditional|
            0 <= i < trig.len() ==> (#[trigger] cleared(trig, conditional_active())[i].1.contains(e)
                <==> trig[i].1.contains(e) && e.0.is_active),
        forall|p: (usize, Position)|
            #[trigger] positions.filter(position_active()).contains(p) <==> positions.contains(p)
                && p.1.is_active,
{
    assert forall|i: int, o: Order| 0 <= i < orders.len() implies (#[trigger] cleared(
        orders,
        order_active(),
    )[i].1.contains(o) <==> orders[i].1.contains(o) && o.is_active) by {
        lemma_filter_keeps_exactly(orders[i].1, order_active(), o);
    }
    assert forall|i: int, e: Conditional| 0 <= i < trig.len() implies (#[trigger] cleared(
        trig,
        conditional_active(),
    )[i].1.contains(e) <==> trig[i].1.contains(e) && e.0.is_active) by {
        lemma_filter_keeps_exactly(trig[i].1, conditional_active(), e);
    }
    assert forall|p: (usize, Position)| #[trigger] positions.filter(position_active()).contains(
        p,
    ) <==> positions.contains(p) && p.1.is_active by {
        lemma_filter_keeps_exactly(positions, position_active(), p);
    }
}

} // verus!

//! One candle of a backtest: the account as the candle left it.
use vstd::prelude::*;

use crate::num::Num;
use crate::types::{Order, Position};

verus! {

/// Things that can be active (an order still waiting, a position still open).
pub trait IsActive {
    spec fn active(&self) -> bool;

    fn is_active(&self) -> (r: bool)
        ensures
            r == self.active(),
    ;
}

impl IsActive for Position {
    open spec fn active(&self) -> bool {
        self.is_active
    }

    fn is_active(&self) -> (r: bool) {
        self.is_active
    }
}

impl IsActive for Order {
    open spec fn active(&self) -> bool {
        self.is_active
    }

    fn is_active(&self) -> (r: bool) {
        self.is_active
    }
}

/// The account at the close of one candle.
///
/// `==` compares the entries of each list in their order.
#[derive(Debug, PartialEq)]
pub struct TradeCell {
    pub capital: Num,
    /// The candle: `0 time, 1 open, 2 high, 3 low, 4 close, 5 volume,
    /// 6 turnover, 7 index price, 8 mark price`.
    pub src: Vec<Num>,
    /// The candle before.
    pub src_l: Vec<Num>,
    pub trigger_orders: Vec<(String, Order)>,
    pub limit_orders: Vec<(String, Order)>,
    pub market_orders: Vec<(String, Order)>,
    pub positions: Vec<(String, Position)>,
}

/// The entries of `s` that are active, in order.
pub open spec fn keep_active<T: IsActive>(s: Seq<(String, T)>) -> Seq<(String, T)> {
    s.filter(|e: (String, T)| e.1.active())
}

impl TradeCell {
    /// An account with the given capital on the given candles, with nothing
    /// pending and nothing open.
    pub fn new(capital: Num, src: Vec<Num>, src_l: Vec<Num>) -> (r: Self)
        ensures
            r.capital == capital,
            r.src == src,
            r.src_l == src_l,
            r.trigger_orders@.len() == 0,
            r.limit_orders@.len() == 0,
            r.market_orders@.len() == 0,
            r.positions@.len() == 0,
    {
        TradeCell {
            capital,
            src,
            src_l,
            trigger_orders: Vec::new(),
            limit_orders: Vec::new(),
            market_orders: Vec::new(),
            positions: Vec::new(),
        }
    }

    /// Forgets the market orders, which are executed or dropped within the
    /// candle, and drops the triggered and limit orders and the positions that
    /// are no longer active.
    pub fn clear(&mut self)
        ensures
            final(self).capital == old(self).capital,
            final(self).src == old(self).src,
            final(self).src_l == old(self).src_l,
            final(self).market_orders@.len() == 0,
            final(self).trigger_orders@ == keep_active(old(self).trigger_orders@),
            final(self).limit_orders@ == keep_active(old(self).limit_orders@),
            final(self).positions@ == keep_active(old(self).positions@),
    {
        self.market_orders.clear();
        self.trigger_orders = retain_active(&self.trigger_orders);
        self.limit_orders = retain_active(&self.limit_orders);
        self.positions = retain_active(&self.positions);
    }
}

/// The active entries of `s`, in order.
fn retain_active<T: IsActive + Clone>(s: &Vec<(String, T)>) -> (r: Vec<(String, T)>)
    requires
        forall|t: T, u: T| call_ensures(T::clone, (&t,), u) ==> u == t,
    ensures
        r@ == keep_active(s@),
{
    let ghost keep = |e: (String, T)| e.1.active();
    let mut r: Vec<(String, T)> = Vec::new();
    let mut x: usize = 0;
    while x < s.len()
        invariant
            x <= s@.len(),
            forall|t: T, u: T| call_ensures(T::clone, (&t,), u) ==> u == t,
            keep == (|e: (String, T)| e.1.active()),
            r@ == s@.take(x as int).filter(keep),
        decreases s@.len() - x,
    {
        proof {
            assert(s@.take(x + 1) =~= s@.take(x as int).push(s@[x as int]));
            s@.take(x as int).lemma_filter_push(s@[x as int], keep);
        }
        if s[x].1.is_active() {
            r.push((s[x].0.clone(), s[x].1.clone()));
        }
        x = x + 1;
    }
    assert(s@.take(s@.len() as int) =~= s@);
    r
}

/// Clearing twice clears no more than clearing once.
pub proof fn lemma_keep_active_idempotent<T: IsActive>(s: Seq<(String, T)>)
    ensures
        keep_active(keep_active(s)) == keep_active(s),
    decreases s.len(),
{
    reveal(Seq::filter);
    if s.len() > 0 {
        lemma_keep_active_idempotent(s.drop_last());
        let f = |e: (String, T)| e.1.active();
        let d = s.drop_last().filter(f);
        if f(s.last()) {
            assert(keep_active(s) == d.push(s.last()));
            assert(d.push(s.last()).drop_last() =~= d);
        }
    }
}

} // verus!

//! The records that the trading logic works on: orders, their triggers,
//! positions, capital and the error of a refused order.
use vstd::prelude::*;

use crate::num::Num;

verus! {

/// Free capital of an account.
#[derive(Clone, Copy, PartialEq, Debug)]
pub struct Capital(pub Num);

/// An order to open, add to or reduce a position.
#[derive(Debug, PartialEq)]
pub struct Order {
    pub symbol: String,
    /// `"buy"` or `"sell"`.
    pub side: String,
    pub qty: Num,
    pub commission: Num,
    pub leverage: Num,
    /// Limit price; `None` for a market order.
    pub price: Option<Num>,
    /// `"market"`, `"limit"`, ...
    pub type_: String,
    /// Which price of a candle a limit price is tested against, see
    /// [`crate::utils::price_type`].
    pub type_price_cross: String,
    /// The position that the order opens or changes.
    pub position_idx: usize,
    /// The order only reduces a position.
    pub is_reduce: bool,
    /// The order still waits for execution.
    pub is_active: bool,
}

/// The condition under which a conditional order becomes an order.
#[derive(Debug, PartialEq)]
pub struct Trigger {
    pub price: Num,
    /// 1: the price is crossed upwards; anything else: downwards.
    pub direction: usize,
    /// Which price of a candle is tested, see [`crate::utils::price_type`].
    pub trigger_by: String,
}

/// An order as a strategy hands it over, possibly conditional.
#[derive(Debug, PartialEq)]
pub struct OrderWrap {
    pub order: Order,
    pub is_trigger: bool,
    pub trigger: Option<Trigger>,
}

/// An open (or just closed) position.
#[derive(Debug, PartialEq)]
pub struct Position {
    pub symbol: String,
    pub side: String,
    pub qty: Num,
    pub leverage: Num,
    pub avg_open_price: Num,
    pub position_idx: usize,
    pub is_active: bool,
    pub pnl_qty: Num,
    pub pnl_percent: Num,
}

/// Why an order was refused.
#[derive(Clone, Copy, PartialEq, Debug)]
pub enum ErrorTrade {
    /// The capital, the quantity and the commission of the refused order.
    NotEnoughCapital(Capital, Num, Num),
}

impl Clone for Order {
    fn clone(&self) -> (r: Self)
        ensures
            r == *self,
    {
        Order {
            symbol: self.symbol.clone(),
            side: self.side.clone(),
            qty: self.qty,
            commission: self.commission,
            leverage: self.leverage,
            price: self.price,
            type_: self.type_.clone(),
            type_price_cross: self.type_price_cross.clone(),
            position_idx: self.position_idx,
            is_reduce: self.is_reduce,
            is_active: self.is_active,
        }
    }
}

impl Clone for Trigger {
    fn clone(&self) -> (r: Self)
        ensures
            r == *self,
    {
        Trigger { price: self.price, direction: self.direction, trigger_by: self.trigger_by.clone() }
    }
}

impl Clone for OrderWrap {
    fn clone(&self) -> (r: Self)
        ensures
            r == *self,
    {
        let trigger = match &self.trigger {
            Some(t) => Some(t.clone()),
            None => None,
        };
        OrderWrap { order: self.order.clone(), is_trigger: self.is_trigger, trigger }
    }
}

impl Clone for Position {
    fn clone(&self) -> (r: Self)
        ensures
            r == *self,
    {
        Position {
            symbol: self.symbol.clone(),
            side: self.side.clone(),
            qty: self.qty,
            leverage: self.leverage,
            avg_open_price: self.avg_open_price,
            position_idx: self.position_idx,
            is_active: self.is_active,
            pnl_qty: self.pnl_qty,
            pnl_percent: self.pnl_percent,
        }
    }
}

impl Default for Order {
    /// An active market order of nothing: empty strings, zero amounts.
    fn default() -> (r: Self)
        ensures
            r.symbol@ == Seq::<char>::empty(),
            r.side@ == Seq::<char>::empty(),
            r.qty == Num(0),
            r.commission == Num(0),
            r.leverage == Num(0),
            r.price is None,
            r.type_@ == Seq::<char>::empty(),
            r.type_price_cross@ == Seq::<char>::empty(),
            r.position_idx == 0,
            !r.is_reduce,
            r.is_active,
    {
        Order {
            symbol: String::new(),
            side: String::new(),
            qty: Num(0),
            commission: Num(0),
            leverage: Num(0),
            price: None,
            type_: String::new(),
            type_price_cross: String::new(),
            position_idx: 0,
            is_reduce: false,
            is_active: true,
        }
    }
}

impl Default for Position {
    /// An active position of nothing: empty strings, zero amounts.
    fn default() -> (r: Self)
        ensures
            r.symbol@ == Seq::<char>::empty(),
            r.side@ == Seq::<char>::empty(),
            r.qty == Num(0),
            r.leverage == Num(0),
            r.avg_open_price == Num(0),
            r.position_idx == 0,
            r.is_active,
            r.pnl_qty == Num(0),
            r.pnl_percent == Num(0),
    {
        Position::new(String::new(), String::new(), Num(0), Num(0), Num(0), 0, true)
    }
}

impl Position {
    /// A position with no profit or loss yet.
    pub fn new(
        symbol: String,
        side: String,
        qty: Num,
        leverage: Num,
        avg_open_price: Num,
        position_idx: usize,
        is_active: bool,
    ) -> (r: Self)
        ensures
            r == (Position {
                symbol,
                side,
                qty,
                leverage,
                avg_open_price,
                position_idx,
                is_active,
                pnl_qty: Num(0),
                pnl_percent: Num(0),
            }),
    {
        Position {
            symbol,
            side,
            qty,
            leverage,
            avg_open_price,
            position_idx,
            is_active,
            pnl_qty: Num(0),
            pnl_percent: Num(0),
        }
    }
}

} // verus!

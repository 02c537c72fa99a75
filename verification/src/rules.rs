//! Whether an order is due, and whether the capital covers it.
use vstd::prelude::*;

use crate::num::{num_le, num_lt, Num};
use crate::types::{Capital, ErrorTrade, Order};
use crate::utils::{crossed, price_column, price_is_crossed};

verus! {

/// The order is active and either a market order or a limit order whose price
/// was crossed between the candles `src_l` and `src`.
pub open spec fn to_execute(order: Order, src: Seq<Num>, src_l: Seq<Num>) -> bool {
    order.is_active && (order.price is None || crossed(
        order.price->0,
        src,
        src_l,
        order.type_price_cross@,
    ))
}

/// The candles hold the price that [`is_to_execute`] reads for the order.
pub open spec fn readable(order: Order, src: Seq<Num>, src_l: Seq<Num>) -> bool {
    order.is_active && order.price is Some ==> {
        &&& price_column(order.type_price_cross@) < src.len()
        &&& price_column(order.type_price_cross@) < src_l.len()
    }
}

/// Whether the order is to be executed on the candle `src`, `src_l` being the
/// candle before it.
pub fn is_to_execute(order: &Order, src: &[Num], src_l: &[Num]) -> (r: bool)
    requires
        readable(*order, src@, src_l@),
    ensures
        r == to_execute(*order, src@, src_l@),
{
    order.is_active && match order.price {
        None => true,
        Some(price) => price_is_crossed(price, src, src_l, order.type_price_cross.as_str()),
    }
}

/// What [`is_executable`] answers when the order costs `required`.
pub open spec fn executable(capital: Capital, order: Order, required: Num) -> Result<
    (),
    ErrorTrade,
> {
    if !order.is_reduce && num_lt(capital.0, required) {
        Err(ErrorTrade::NotEnoughCapital(capital, order.qty, order.commission))
    } else {
        Ok(())
    }
}

/// Whether the capital covers the order.
///
/// `required` is what opening the order takes out of the capital,
/// `qty / leverage + commission` in binary64 arithmetic. An order that only
/// reduces a position is always covered; any other is refused when
/// `capital - required < 0`, which for binary64 values holds exactly when
/// `capital < required`.
pub fn is_executable(capital: Capital, order: &Order, required: Num) -> (r: Result<(), ErrorTrade>)
    ensures
        r == executable(capital, *order, required),
{
    if !order.is_reduce {
        if capital.0.lt(required) {
            return Err(ErrorTrade::NotEnoughCapital(capital, order.qty, order.commission));
        }
    }
    Ok(())
}

/// More capital never turns an accepted order into a refused one, and an
/// order that only reduces a position is always accepted.
pub proof fn lemma_executable_monotone(c: Capital, more: Capital, order: Order, required: Num)
    ensures
        executable(c, order, required) is Ok && num_le(c.0, more.0) ==> executable(
            more,
            order,
            required,
        ) is Ok,
        order.is_reduce ==> executable(c, order, required) is Ok,
{
}

/// Whatever its type or limit price, an order that is not reduce-only is
/// refused exactly when the capital is below what it takes, and the refusal
/// names that capital, the order's quantity and its commission; a
/// reduce-only order is never refused.
pub proof fn lemma_refused_exactly_when_short(capital: Capital, order: Order, required: Num)
    ensures
        executable(capital, order, required) is Err <==> (!order.is_reduce && num_lt(
            capital.0,
            required,
        )),
        executable(capital, order, required) is Err ==> executable(capital, order, required)
            == Err::<(), ErrorTrade>(
            ErrorTrade::NotEnoughCapital(capital, order.qty, order.commission),
        ),
{
}

/// Two orders that agree on being reduce-only, on quantity and on
/// commission get the same answer on the same capital and cost, whatever
/// else (type, side, limit price, trigger column) tells them apart.
pub proof fn lemma_refusal_ignores_kind(capital: Capital, a: Order, b: Order, required: Num)
    requires
        a.is_reduce == b.is_reduce,
        a.qty == b.qty,
        a.commission == b.commission,
    ensures
        executable(capital, a, required) == executable(capital, b, required),
{
}

/// An active limit order is due exactly when its price lies between the
/// price that it reads in the candle before (at most its price) and the one
/// in the current candle (at least its price); an inactive order never is,
/// and an active market order always is.
pub proof fn lemma_due_exactly_when_crossed(order: Order, src: Seq<Num>, src_l: Seq<Num>)
    ensures
        ({
            let col = price_column(order.type_price_cross@);
            to_execute(order, src, src_l) <==> order.is_active && (order.price is None || (
            num_le(src_l[col], order.price->0) && num_le(order.price->0, src[col])))
        }),
{
}

/// An inactive order is never due; an active market order always is.
pub proof fn lemma_market_and_inactive(order: Order, src: Seq<Num>, src_l: Seq<Num>)
    ensures
        !order.is_active ==> !to_execute(order, src, src_l),
        order.is_active && order.price is None ==> to_execute(order, src, src_l),
{
}

} // verus!

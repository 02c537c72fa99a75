//! Reading prices out of a candle and testing whether a price was crossed.
//!
//! A candle is a row `0 time, 1 open, 2 high, 3 low, 4 close, 5 volume,
//! 6 turnover, 7 index price, 8 mark price`.
use vstd::prelude::*;

use crate::num::{num_le, Num};

verus! {

/// Whether two strings hold the same characters, compared byte by byte
/// through their UTF-8 encodings, which tell strings apart exactly as their
/// characters do.
pub(crate) fn str_eq(a: &str, b: &str) -> (r: bool)
    ensures
        r == (a@ == b@),
{
    let x = a.as_bytes();
    let y = b.as_bytes();
    proof {
        vstd::utf8::encode_utf8_decode_utf8(a@);
        vstd::utf8::encode_utf8_decode_utf8(b@);
    }
    if x.len() != y.len() {
        return false;
    }
    let mut i: usize = 0;
    while i < x.len()
        invariant
            x@.len() == y@.len(),
            a@ == b@ ==> x@ == y@,
            i <= x@.len(),
            forall|j: int| 0 <= j < i ==> x@[j] == y@[j],
        decreases x@.len() - i,
    {
        if x[i] != y[i] {
            return false;
        }
        i = i + 1;
    }
    assert(x@ =~= y@);
    true
}

/// The column of a candle that a price type reads: `"index"` the index price,
/// `"mark"` the mark price, anything else (`"last"` among them) the close.
pub open spec fn price_column(type_: Seq<char>) -> int {
    if type_ == "index"@ {
        7
    } else if type_ == "mark"@ {
        8
    } else {
        4
    }
}

/// The column that [`price_type`] reads for a price type.
pub fn price_type_index(type_: &str) -> (r: usize)
    ensures
        r == price_column(type_@),
{
    if str_eq(type_, "index") {
        7
    } else if str_eq(type_, "mark") {
        8
    } else {
        4
    }
}

/// The price of kind `type_` in the candle `src`.
pub fn price_type(src: &[Num], type_: &str) -> (r: Num)
    requires
        price_column(type_@) < src@.len(),
    ensures
        r == src@[price_column(type_@)],
{
    let i = price_type_index(type_);
    src[i]
}

/// The price lies between the price of kind `type_` in the previous candle
/// `src_l` and in the current candle `src`, the latter above.
pub open spec fn crossed(price: Num, src: Seq<Num>, src_l: Seq<Num>, type_: Seq<char>) -> bool {
    num_le(price, src[price_column(type_)]) && num_le(src_l[price_column(type_)], price)
}

/// The price was crossed, moving in `direction` (1 up, anything else down),
/// between the previous candle `src_l` and the current one `src`.
pub open spec fn crossed_in(
    price: Num,
    direction: usize,
    src: Seq<Num>,
    src_l: Seq<Num>,
    type_: Seq<char>,
) -> bool {
    if direction == 1 {
        crossed(price, src, src_l, type_)
    } else {
        crossed(price, src_l, src, type_)
    }
}

/// Whether `price <= p && price >= p_l`, where `p` and `p_l` are the prices of
/// kind `type_price_crossed` in `src` and `src_l`.
pub fn price_is_crossed(price: Num, src: &[Num], src_l: &[Num], type_price_crossed: &str) -> (r:
    bool)
    requires
        price_column(type_price_crossed@) < src@.len(),
        price_column(type_price_crossed@) < src_l@.len(),
    ensures
        r == crossed(price, src@, src_l@, type_price_crossed@),
{
    price.le(price_type(src, type_price_crossed)) && price.ge(
        price_type(src_l, type_price_crossed),
    )
}

/// Like [`price_is_crossed`] for `direction == 1`; for any other direction
/// the test is `price >= p && price <= p_l`.
pub fn price_is_crossed_direction(
    price: Num,
    direction: usize,
    src: &[Num],
    src_l: &[Num],
    type_price_crossed: &str,
) -> (r: bool)
    requires
        price_column(type_price_crossed@) < src@.len(),
        price_column(type_price_crossed@) < src_l@.len(),
    ensures
        r == crossed_in(price, direction, src@, src_l@, type_price_crossed@),
{
    let p = price_type(src, type_price_crossed);
    let p_l = price_type(src_l, type_price_crossed);
    if direction == 1 {
        price.le(p) && price.ge(p_l)
    } else {
        price.ge(p) && price.le(p_l)
    }
}

/// Crossing upwards is the undirected crossing test, and crossing in any
/// other direction is the upward test with the two candles exchanged.
pub proof fn lemma_direction(
    price: Num,
    direction: usize,
    src: Seq<Num>,
    src_l: Seq<Num>,
    type_: Seq<char>,
)
    ensures
        crossed_in(price, 1, src, src_l, type_) == crossed(price, src, src_l, type_),
        direction != 1 ==> crossed_in(price, direction, src, src_l, type_) == crossed_in(
            price,
            1,
            src_l,
            src,
            type_,
        ),
{
}

/// A NaN price is never crossed, nor is any price when the candle holds a NaN
/// where it is read.
pub proof fn lemma_nan_never_crossed(price: Num, src: Seq<Num>, src_l: Seq<Num>, type_: Seq<char>)
    requires
        price.nan() || src[price_column(type_)].nan() || src_l[price_column(type_)].nan(),
    ensures
        !crossed(price, src, src_l, type_),
{
}

/// A price can be crossed in both directions only when the two candles agree
/// on it, at the same key.
pub proof fn lemma_both_directions(
    price: Num,
    src: Seq<Num>,
    src_l: Seq<Num>,
    type_: Seq<char>,
)
    requires
        crossed_in(price, 1, src, src_l, type_),
        crossed_in(price, 2, src, src_l, type_),
    ensures
        src[price_column(type_)].key() == price.key(),
        src_l[price_column(type_)].key() == price.key(),
{
}

} // verus!

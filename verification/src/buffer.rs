//! A sliding window over the candles of a backtest.
use vstd::prelude::*;

use crate::num::Num;
use crate::statistics::rows;

verus! {

/// Rows of numbers: candles, or (transposed) series.
#[derive(Debug, PartialEq)]
pub struct Buffer(pub Vec<Vec<Num>>);

/// Every row is as long as the first.
pub open spec fn rectangular(g: Seq<Seq<Num>>) -> bool {
    forall|i: int| 0 <= i < g.len() ==> (#[trigger] g[i]).len() == g[0].len()
}

/// Rows turned into columns: row `j` of the result holds entry `j` of every
/// row. Nothing comes of no rows.
pub open spec fn transposed(g: Seq<Seq<Num>>) -> Seq<Seq<Num>> {
    if g.len() == 0 {
        Seq::empty()
    } else {
        Seq::new(g[0].len(), |j: int| Seq::new(g.len(), |i: int| g[i][j]))
    }
}

proof fn lemma_rows_push(s: Seq<Vec<Num>>, x: Vec<Num>)
    ensures
        rows(s.push(x)) == rows(s).push(x@),
{
    assert(rows(s.push(x)) =~= rows(s).push(x@));
}

/// A copy of a row.
fn copy_row(v: &Vec<Num>) -> (r: Vec<Num>)
    ensures
        r@ == v@,
{
    let mut r: Vec<Num> = Vec::new();
    let mut i: usize = 0;
    while i < v.len()
        invariant
            i <= v@.len(),
            r@ == v@.take(i as int),
        decreases v@.len() - i,
    {
        r.push(v[i]);
        i = i + 1;
        assert(r@ =~= v@.take(i as int));
    }
    assert(v@.take(v@.len() as int) =~= v@);
    r
}

/// A copy of rows.
fn copy_rows(v: &[Vec<Num>]) -> (r: Vec<Vec<Num>>)
    ensures
        rows(r@) == rows(v@),
{
    let mut r: Vec<Vec<Num>> = Vec::new();
    let mut i: usize = 0;
    while i < v.len()
        invariant
            i <= v@.len(),
            rows(r@) == rows(v@).take(i as int),
        decreases v@.len() - i,
    {
        let ghost before = r@;
        let row = copy_row(&v[i]);
        r.push(row);
        proof {
            lemma_rows_push(before, row);
            assert(rows(v@)[i as int] == v@[i as int]@);
        }
        i = i + 1;
        assert(rows(r@) =~= rows(v@).take(i as int));
    }
    assert(rows(v@).take(v@.len() as int) =~= rows(v@));
    r
}

/// The rows of `g` transposed.
fn transpose_rows(g: &Vec<Vec<Num>>) -> (r: Vec<Vec<Num>>)
    requires
        rectangular(rows(g@)),
    ensures
        rows(r@) == transposed(rows(g@)),
{
    let ghost t = transposed(rows(g@));
    let mut r: Vec<Vec<Num>> = Vec::new();
    if g.len() == 0 {
        assert(rows(r@) =~= t);
        return r;
    }
    let width = g[0].len();
    let mut j: usize = 0;
    while j < width
        invariant
            g@.len() > 0,
            width == g@[0]@.len(),
            rectangular(rows(g@)),
            t == transposed(rows(g@)),
            j <= width,
            rows(r@) == t.take(j as int),
        decreases width - j,
    {
        let mut col: Vec<Num> = Vec::new();
        let mut i: usize = 0;
        while i < g.len()
            invariant
                g@.len() > 0,
                width == g@[0]@.len(),
                rectangular(rows(g@)),
                j < width,
                i <= g@.len(),
                col@ == Seq::new(i as nat, |x: int| g@[x]@[j as int]),
            decreases g@.len() - i,
        {
            assert(rows(g@)[i as int] == g@[i as int]@);
            col.push(g[i][j]);
            i = i + 1;
            assert(col@ =~= Seq::new(i as nat, |x: int| g@[x]@[j as int]));
        }
        let ghost before = r@;
        proof {
            assert(col@ =~= t[j as int]);
        }
        r.push(col);
        proof {
            lemma_rows_push(before, col);
        }
        j = j + 1;
        assert(rows(r@) =~= t.take(j as int));
    }
    assert(t.take(width as int) =~= t);
    r
}

impl Buffer {
    pub fn new(src: Vec<Vec<Num>>) -> (r: Self)
        ensures
            r.0 == src,
    {
        Buffer(src)
    }

    /// Slides the window by one candle: the oldest row goes, `src` comes last.
    pub fn update(&mut self, src: Vec<Num>)
        requires
            old(self).0@.len() > 0,
        ensures
            final(self).0@ == old(self).0@.skip(1).push(src),
    {
        let _oldest = self.0.remove(0);
        self.0.push(src);
    }

    /// Slides the window by the rows of `src`: as many of the oldest rows go
    /// as `src` has (all of them when `src` has more), and `src` comes last.
    pub fn update_extend(&mut self, src: &[Vec<Num>])
        ensures
            rows(final(self).0@) == rows(old(self).0@).skip(
                if src@.len() < old(self).0@.len() {
                    src@.len() as int
                } else {
                    old(self).0@.len() as int
                },
            ) + rows(src@),
    {
        let ghost g = rows(self.0@);
        let n = if src.len() < self.0.len() {
            src.len()
        } else {
            self.0.len()
        };
        let mut kept: Vec<Vec<Num>> = Vec::new();
        let mut i: usize = n;
        while i < self.0.len()
            invariant
                n <= i <= self.0@.len(),
                g == rows(self.0@),
                rows(kept@) == g.subrange(n as int, i as int),
            decreases self.0@.len() - i,
        {
            let ghost before = kept@;
            let row = copy_row(&self.0[i]);
            kept.push(row);
            proof {
                lemma_rows_push(before, row);
                assert(g[i as int] == self.0@[i as int]@);
            }
            i = i + 1;
            assert(rows(kept@) =~= g.subrange(n as int, i as int));
        }
        assert(g.subrange(n as int, g.len() as int) =~= g.skip(n as int));
        let mut j: usize = 0;
        while j < src.len()
            invariant
                j <= src@.len(),
                rows(kept@) == g.skip(n as int) + rows(src@).take(j as int),
            decreases src@.len() - j,
        {
            let ghost before = kept@;
            let row = copy_row(&src[j]);
            kept.push(row);
            proof {
                lemma_rows_push(before, row);
                assert(rows(src@)[j as int] == src@[j as int]@);
            }
            j = j + 1;
            assert(rows(kept@) =~= g.skip(n as int) + rows(src@).take(j as int));
        }
        assert(rows(src@).take(src@.len() as int) =~= rows(src@));
        self.0 = kept;
    }

    /// The oldest row.
    pub fn first(&self) -> (r: Option<&Vec<Num>>)
        ensures
            r == if self.0@.len() > 0 {
                Some(&self.0@[0])
            } else {
                None
            },
    {
        if self.0.len() > 0 {
            Some(&self.0[0])
        } else {
            None
        }
    }

    /// The newest row.
    pub fn last(&self) -> (r: Option<&Vec<Num>>)
        ensures
            r == if self.0@.len() > 0 {
                Some(&self.0@[self.0@.len() - 1])
            } else {
                None
            },
    {
        if self.0.len() > 0 {
            Some(&self.0[self.0.len() - 1])
        } else {
            None
        }
    }

    pub fn len(&self) -> (r: usize)
        ensures
            r == self.0@.len(),
    {
        self.0.len()
    }

    /// Row `i`.
    pub fn index(&self, i: usize) -> (r: &Vec<Num>)
        requires
            i < self.0@.len(),
        ensures
            *r == self.0@[i as int],
    {
        &self.0[i]
    }

    pub fn as_slice(&self) -> (r: &[Vec<Num>])
        ensures
            r@ == self.0@,
    {
        self.0.as_slice()
    }

    /// Appends rows after the newest.
    pub fn extend(&mut self, src: Vec<Vec<Num>>)
        ensures
            final(self).0@ == old(self).0@ + src@,
    {
        let mut src = src;
        self.0.append(&mut src);
    }

    /// The buffer with rows turned into columns.
    pub fn transpose(self) -> (r: Self)
        requires
            rectangular(rows(self.0@)),
        ensures
            rows(r.0@) == transposed(rows(self.0@)),
    {
        Buffer(transpose_rows(&self.0))
    }

    /// Turns rows into columns in place.
    pub fn transpose_set(&mut self)
        requires
            rectangular(rows(old(self).0@)),
        ensures
            rows(final(self).0@) == transposed(rows(old(self).0@)),
    {
        self.0 = transpose_rows(&self.0);
    }
}

/// Making a buffer out of rows.
pub trait ToBuff {
    fn to_buff(&self) -> Buffer;
}

impl ToBuff for [Vec<Num>] {
    /// A buffer holding a copy of the rows.
    fn to_buff(&self) -> (r: Buffer)
        ensures
            rows(r.0@) == rows(self@),
    {
        Buffer(copy_rows(self))
    }
}

/// Transposing a rectangular grid whose rows are not empty, and transposing
/// back, gives the grid again.
pub proof fn lemma_transpose_twice(g: Seq<Seq<Num>>)
    requires
        rectangular(g),
        g.len() > 0,
        g[0].len() > 0,
    ensures
        rectangular(transposed(g)),
        transposed(transposed(g)) == g,
{
    let t = transposed(g);
    assert(t[0].len() == g.len());
    let tt = transposed(t);
    assert(tt.len() == g.len());
    assert forall|i: int| 0 <= i < g.len() implies #[trigger] tt[i] == g[i] by {
        assert(tt[i] =~= g[i]);
    }
    assert(tt =~= g);
}

/// Sliding by one keeps the length of the window, and the new row is the
/// newest.
pub proof fn lemma_update_keeps_length(g: Seq<Vec<Num>>, src: Vec<Num>)
    requires
        g.len() > 0,
    ensures
        g.skip(1).push(src).len() == g.len(),
        g.skip(1).push(src).last() == src,
{
}

} // verus!

//! Lists of entries keyed by name, each holding a list of items: the maps of
//! pending orders that a trading state keeps, one entry per strategy.
//!
//! A book is held as a `Vec` of `(key, items)` pairs whose keys are distinct;
//! entries keep the order in which their keys first appeared.
use vstd::prelude::*;

use crate::utils::str_eq;

verus! {

/// Items under distinct names, as sequences.
pub type Book<V> = Seq<(Seq<char>, Seq<V>)>;

/// The mathematical value of a book: keys as character sequences, items as
/// sequences.
pub open spec fn book<V>(s: Seq<(String, Vec<V>)>) -> Seq<(Seq<char>, Seq<V>)> {
    s.map_values(|e: (String, Vec<V>)| (e.0@, e.1@))
}

/// No key occurs twice.
pub open spec fn distinct_keys<X>(b: Seq<(Seq<char>, X)>) -> bool {
    forall|i: int, j: int| 0 <= i < b.len() && 0 <= j < b.len() && i != j ==> b[i].0 != b[j].0
}

/// Some entry has the key `k`.
pub open spec fn has_key<X>(b: Seq<(Seq<char>, X)>, k: Seq<char>) -> bool {
    exists|i: int| 0 <= i < b.len() && b[i].0 == k
}

/// The index of the entry with key `k` (meaningful when [`has_key`] holds).
pub open spec fn key_at<X>(b: Seq<(Seq<char>, X)>, k: Seq<char>) -> int {
    choose|i: int| 0 <= i < b.len() && b[i].0 == k
}

/// The items under key `k`; none when the key is absent.
pub open spec fn lookup<V>(b: Seq<(Seq<char>, Seq<V>)>, k: Seq<char>) -> Seq<V> {
    if has_key(b, k) {
        b[key_at(b, k)].1
    } else {
        Seq::empty()
    }
}

/// The book after appending `v` to the items under `k`; a new entry for `k`
/// goes at the end.
pub open spec fn push_at<V>(b: Seq<(Seq<char>, Seq<V>)>, k: Seq<char>, v: V) -> Seq<
    (Seq<char>, Seq<V>),
> {
    if has_key(b, k) {
        b.update(key_at(b, k), (k, b[key_at(b, k)].1.push(v)))
    } else {
        b.push((k, seq![v]))
    }
}

/// In a book with distinct keys, the entry at `i` is the one that `key_at`
/// names for its key.
pub proof fn lemma_key_at_unique<X>(b: Seq<(Seq<char>, X)>, i: int)
    requires
        distinct_keys(b),
        0 <= i < b.len(),
    ensures
        has_key(b, b[i].0),
        key_at(b, b[i].0) == i,
{
    assert(0 <= i < b.len() && b[i].0 == b[i].0);
}

/// A book whose entries carry, place by place, the keys of a book with
/// distinct keys has distinct keys too.
pub proof fn lemma_same_keys<X, Y>(b: Seq<(Seq<char>, X)>, c: Seq<(Seq<char>, Y)>)
    requires
        distinct_keys(b),
        c.len() == b.len(),
        forall|i: int| 0 <= i < b.len() ==> #[trigger] c[i].0 == b[i].0,
    ensures
        distinct_keys(c),
{
    assert forall|x: int, y: int| 0 <= x < c.len() && 0 <= y < c.len() && x != y implies c[x].0
        != c[y].0 by {
        assert(c[x].0 == b[x].0 && c[y].0 == b[y].0);
    }
}

/// Taking an entry out of a book keeps its keys distinct.
pub proof fn lemma_remove_keeps_distinct<X>(b: Seq<(Seq<char>, X)>, k: int)
    requires
        distinct_keys(b),
        0 <= k < b.len(),
    ensures
        distinct_keys(b.remove(k)),
{
    let c = b.remove(k);
    assert forall|x: int, y: int| 0 <= x < c.len() && 0 <= y < c.len() && x != y implies c[x].0
        != c[y].0 by {
        let xx = if x < k { x } else { x + 1 };
        let yy = if y < k { y } else { y + 1 };
        assert(c[x] == b[xx] && c[y] == b[yy]);
    }
}

/// Appending under a key changes the items under that key only, by one item
/// at their end, and keeps the keys distinct.
pub proof fn lemma_push_at<V>(b: Seq<(Seq<char>, Seq<V>)>, k: Seq<char>, v: V, k2: Seq<char>)
    requires
        distinct_keys(b),
    ensures
        distinct_keys(push_at(b, k, v)),
        has_key(push_at(b, k, v), k2) == (has_key(b, k2) || k2 == k),
        lookup(push_at(b, k, v), k2) == if k2 == k {
            lookup(b, k).push(v)
        } else {
            lookup(b, k2)
        },
{
    let r = push_at(b, k, v);
    if has_key(b, k) {
        let i = key_at(b, k);
        assert(r.len() == b.len());
        assert forall|x: int| 0 <= x < r.len() implies r[x].0 == b[x].0 by {}
        if has_key(b, k2) {
            let j = key_at(b, k2);
            lemma_key_at_unique(r, j);
        } else {
            if has_key(r, k2) {
                let j = key_at(r, k2);
                assert(b[j].0 == k2);
            }
        }
        if k2 == k {
            lemma_key_at_unique(r, i);
        }
    } else {
        let n = b.len() as int;
        assert(r[n].0 == k);
        lemma_key_at_unique(r, n);
        if has_key(b, k2) {
            let j = key_at(b, k2);
            assert(r[j] == b[j]);
            lemma_key_at_unique(r, j);
        } else if k2 != k {
            if has_key(r, k2) {
                let j = key_at(r, k2);
                assert(j != n);
                assert(b[j].0 == k2);
            }
        }
    }
}

/// The first entry of `s` whose key is `k`.
pub fn find_key<V>(s: &Vec<(String, V)>, k: &str) -> (r: Option<usize>)
    ensures
        match r {
            Some(i) => i < s@.len() && s@[i as int].0@ == k@ && forall|j: int|
                0 <= j < i ==> s@[j].0@ != k@,
            None => forall|j: int| 0 <= j < s@.len() ==> s@[j].0@ != k@,
        },
{
    let mut i: usize = 0;
    while i < s.len()
        invariant
            i <= s@.len(),
            forall|j: int| 0 <= j < i ==> s@[j].0@ != k@,
        decreases s@.len() - i,
    {
        if str_eq(s[i].0.as_str(), k) {
            return Some(i);
        }
        i = i + 1;
    }
    None
}

/// Whether no name occurs twice in the book.
pub fn names_distinct<V>(s: &Vec<(String, Vec<V>)>) -> (r: bool)
    ensures
        r == distinct_keys(book(s@)),
{
    let ghost b = book(s@);
    let n = s.len();
    let mut i: usize = 0;
    while i < n
        invariant
            n == s@.len(),
            b == book(s@),
            i <= n,
            forall|x: int, y: int| 0 <= x < i && x < y < n ==> b[x].0 != b[y].0,
        decreases n - i,
    {
        let mut j: usize = i + 1;
        while j < n
            invariant
                n == s@.len(),
                b == book(s@),
                i < n,
                i + 1 <= j <= n,
                forall|x: int, y: int| 0 <= x < i && x < y < n ==> b[x].0 != b[y].0,
                forall|y: int| i < y < j ==> b[i as int].0 != b[y].0,
            decreases n - j,
        {
            assert(b[i as int].0 == s@[i as int].0@ && b[j as int].0 == s@[j as int].0@);
            if str_eq(s[i].0.as_str(), s[j].0.as_str()) {
                assert(!distinct_keys(b));
                return false;
            }
            j = j + 1;
        }
        i = i + 1;
    }
    assert forall|x: int, y: int| 0 <= x < b.len() && 0 <= y < b.len() && x != y implies b[x].0
        != b[y].0 by {
        if x > y {
            assert(b[y].0 != b[x].0);
        }
    }
    true
}

/// Appends `v` to the items under the key `k`, opening an entry for `k` at the
/// end when there is none.
pub fn push_to<V>(s: &mut Vec<(String, Vec<V>)>, k: &String, v: V)
    requires
        distinct_keys(book(old(s)@)),
    ensures
        book(final(s)@) == push_at(book(old(s)@), k@, v),
        distinct_keys(book(final(s)@)),
{
    let ghost b = book(s@);
    proof {
        lemma_push_at(b, k@, v, k@);
    }
    match find_key(s, k.as_str()) {
        Some(i) => {
            proof {
                assert(b[i as int].0 == k@);
                lemma_key_at_unique(b, i as int);
            }
            let (key, mut items) = s.remove(i);
            items.push(v);
            s.insert(i, (key, items));
            assert(book(s@) =~= push_at(b, k@, v));
        },
        None => {
            assert(!has_key(b, k@));
            let mut items: Vec<V> = Vec::new();
            items.push(v);
            s.push((k.clone(), items));
            assert(book(s@) =~= push_at(b, k@, v));
        },
    }
}

} // verus!

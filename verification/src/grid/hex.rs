//! A sparse hexagonal grid: a coordinate-to-value mapping keyed by axial
//! `HexPoint`s. Absence of a key is absence of a cell; the grid grows on
//! demand and is never resized or compacted.

use vstd::prelude::*;

verus! {

use crate::grid::model::{
    filter_by, keys_distinct, lemma_distinct_filter_by, lemma_distinct_push,
    lemma_distinct_update, lemma_map_of_contains, lemma_map_of_index, lemma_map_of_push,
    lemma_map_of_update, map_of,
};
use crate::grid::model::present_keys;
use crate::point::hex::{hex_ring, HexPoint};

/// A sparse grid of values addressed by axial hexagonal points. The
/// backing entry sequence holds each stored key exactly once; its map
/// reading (`view`) is the grid's meaning, and the entry order is the
/// iteration order.
pub struct HexGrid<T> {
    pairs: Vec<(HexPoint, T)>,
}

/// The smallest r component among the keys of `s`.
pub open spec fn hex_key_min_r<T>(s: Seq<(HexPoint, T)>) -> int
    recommends
        s.len() > 0,
    decreases s.len(),
{
    if s.len() <= 1 {
        s[0].0.r as int
    } else if s.last().0.r < hex_key_min_r(s.drop_last()) {
        s.last().0.r as int
    } else {
        hex_key_min_r(s.drop_last())
    }
}

/// The smallest q component among the keys of `s`.
pub open spec fn hex_key_min_q<T>(s: Seq<(HexPoint, T)>) -> int
    recommends
        s.len() > 0,
    decreases s.len(),
{
    if s.len() <= 1 {
        s[0].0.q as int
    } else if s.last().0.q < hex_key_min_q(s.drop_last()) {
        s.last().0.q as int
    } else {
        hex_key_min_q(s.drop_last())
    }
}

/// The largest r component among the keys of `s`.
pub open spec fn hex_key_max_r<T>(s: Seq<(HexPoint, T)>) -> int
    recommends
        s.len() > 0,
    decreases s.len(),
{
    if s.len() <= 1 {
        s[0].0.r as int
    } else if s.last().0.r > hex_key_max_r(s.drop_last()) {
        s.last().0.r as int
    } else {
        hex_key_max_r(s.drop_last())
    }
}

/// The largest q component among the keys of `s`.
pub open spec fn hex_key_max_q<T>(s: Seq<(HexPoint, T)>) -> int
    recommends
        s.len() > 0,
    decreases s.len(),
{
    if s.len() <= 1 {
        s[0].0.q as int
    } else if s.last().0.q > hex_key_max_q(s.drop_last()) {
        s.last().0.q as int
    } else {
        hex_key_max_q(s.drop_last())
    }
}

/// The four key extrema bound every stored key and are attained by one.
pub proof fn lemma_hex_key_bounds<T>(s: Seq<(HexPoint, T)>)
    requires
        s.len() > 0,
    ensures
        forall|i: int|
            0 <= i < s.len() ==> hex_key_min_r(s) <= (#[trigger] s[i]).0.r <= hex_key_max_r(s),
        forall|i: int|
            0 <= i < s.len() ==> hex_key_min_q(s) <= (#[trigger] s[i]).0.q <= hex_key_max_q(s),
        exists|i: int| 0 <= i < s.len() && (#[trigger] s[i]).0.r == hex_key_min_r(s),
        exists|i: int| 0 <= i < s.len() && (#[trigger] s[i]).0.q == hex_key_min_q(s),
        exists|i: int| 0 <= i < s.len() && (#[trigger] s[i]).0.r == hex_key_max_r(s),
        exists|i: int| 0 <= i < s.len() && (#[trigger] s[i]).0.q == hex_key_max_q(s),
    decreases s.len(),
{
    if s.len() > 1 {
        lemma_hex_key_bounds(s.drop_last());
        assert forall|i: int|
            0 <= i < s.len() implies hex_key_min_r(s) <= (#[trigger] s[i]).0.r <= hex_key_max_r(s)
            && hex_key_min_q(s) <= s[i].0.q <= hex_key_max_q(s) by {
            if i < s.len() - 1 {
                assert(s.drop_last()[i] == s[i]);
            }
        }
        if hex_key_min_r(s) != s.last().0.r {
            let i = choose|i: int|
                0 <= i < s.drop_last().len() && (#[trigger] s.drop_last()[i]).0.r == hex_key_min_r(
                    s.drop_last(),
                );
            assert(s[i].0.r == hex_key_min_r(s));
        } else {
            assert(s[s.len() - 1].0.r == hex_key_min_r(s));
        }
        if hex_key_min_q(s) != s.last().0.q {
            let i = choose|i: int|
                0 <= i < s.drop_last().len() && (#[trigger] s.drop_last()[i]).0.q == hex_key_min_q(
                    s.drop_last(),
                );
            assert(s[i].0.q == hex_key_min_q(s));
        } else {
            assert(s[s.len() - 1].0.q == hex_key_min_q(s));
        }
        if hex_key_max_r(s) != s.last().0.r {
            let i = choose|i: int|
                0 <= i < s.drop_last().len() && (#[trigger] s.drop_last()[i]).0.r == hex_key_max_r(
                    s.drop_last(),
                );
            assert(s[i].0.r == hex_key_max_r(s));
        } else {
            assert(s[s.len() - 1].0.r == hex_key_max_r(s));
        }
        if hex_key_max_q(s) != s.last().0.q {
            let i = choose|i: int|
                0 <= i < s.drop_last().len() && (#[trigger] s.drop_last()[i]).0.q == hex_key_max_q(
                    s.drop_last(),
                );
            assert(s[i].0.q == hex_key_max_q(s));
        } else {
            assert(s[s.len() - 1].0.q == hex_key_max_q(s));
        }
    } else {
        assert(s[0].0.r == hex_key_min_r(s));
    }
}

impl<T> View for HexGrid<T> {
    type V = Map<HexPoint, T>;

    open spec fn view(&self) -> Map<HexPoint, T> {
        map_of(self.entries())
    }
}

impl<T> HexGrid<T> {
    /// The backing entry sequence: each stored (key, value) pair once, in
    /// iteration order.
    pub closed spec fn entries(&self) -> Seq<(HexPoint, T)> {
        self.pairs@
    }

    /// Well-formedness: no key occurs twice. Constructors establish it
    /// and every method preserves it.
    pub closed spec fn wf(&self) -> bool {
        keys_distinct(self.pairs@)
    }

    /// An empty sparse grid.
    pub fn new() -> (g: Self)
        ensures
            g.wf(),
            g@ == Map::<HexPoint, T>::empty(),
            g.entries().len() == 0,
    {
        HexGrid { pairs: Vec::new() }
    }

    /// A grid holding the given entries, inserted in order; a later pair
    /// with the same key overwrites an earlier one.
    pub fn from_pairs(v: Vec<(HexPoint, T)>) -> (g: Self)
        ensures
            g.wf(),
            g@ == map_of(v@),
    {
        let mut g = HexGrid::new();
        let n = v.len();
        let ghost vs = v@;
        let mut v = v;
        let mut i: usize = 0;
        proof {
            assert(vs.take(0) =~= Seq::empty());
        }
        while i < n
            invariant
                n == vs.len(),
                v@ == vs.skip(i as int),
                0 <= i <= n,
                g.wf(),
                g@ == map_of(vs.take(i as int)),
            decreases n - i,
        {
            let (p, val) = v.remove(0);
            proof {
                assert(vs.skip(i as int)[0] == vs[i as int]);
                assert(vs.skip(i as int).remove(0) =~= vs.skip(i + 1));
                assert(vs.take(i + 1).drop_last() =~= vs.take(i as int));
                assert(vs.take(i + 1).last() == vs[i as int]);
            }
            g.set(p, val);
            i += 1;
        }
        proof {
            assert(vs.take(n as int) =~= vs);
        }
        g
    }

    /// Looks a coordinate up, returning the stored value if the cell is
    /// present.
    pub fn get(&self, p: &HexPoint) -> (r: Option<&T>)
        requires
            self.wf(),
        ensures
            match r {
                Some(v) => self@.contains_key(*p) && *v == self@[*p],
                None => !self@.contains_key(*p),
            },
    {
        let ghost s = self.pairs@;
        let n = self.pairs.len();
        let mut i: usize = 0;
        while i < n
            invariant
                n == s.len(),
                s == self.pairs@,
                keys_distinct(s),
                0 <= i <= n,
                forall|j: int| 0 <= j < i ==> (#[trigger] s[j]).0 != *p,
            decreases n - i,
        {
            if self.pairs[i].0 == *p {
                proof {
                    lemma_map_of_index(s, i as int);
                }
                return Some(&self.pairs[i].1);
            }
            i += 1;
        }
        proof {
            lemma_map_of_contains(s, *p);
        }
        None
    }

    /// Looks a coordinate up for mutation. Writing through the returned
    /// reference updates the stored value at `p` and nothing else.
    pub fn get_mut(&mut self, p: &HexPoint) -> (r: Option<&mut T>)
        requires
            old(self).wf(),
        ensures
            final(self).wf(),
            match r {
                Some(m) => {
                    &&& old(self)@.contains_key(*p)
                    &&& *m == old(self)@[*p]
                    &&& final(self)@ == old(self)@.insert(*p, *final(m))
                    &&& final(self).entries().len() == old(self).entries().len()
                },
                None => {
                    &&& !old(self)@.contains_key(*p)
                    &&& *final(self) == *old(self)
                },
            },
    {
        let ghost s = self.pairs@;
        let n = self.pairs.len();
        let mut i: usize = 0;
        while i < n
            invariant
                n == s.len(),
                *self == *old(self),
                s == self.pairs@,
                keys_distinct(s),
                0 <= i <= n,
                forall|j: int| 0 <= j < i ==> (#[trigger] s[j]).0 != *p,
            decreases n - i,
        {
            if self.pairs[i].0 == *p {
                proof {
                    lemma_map_of_index(s, i as int);
                    assert forall|v: T| #[trigger]
                        map_of(s.update(i as int, (*p, v))) == map_of(s).insert(*p, v) by {
                        lemma_map_of_update(s, i as int, *p, v);
                    }
                    assert forall|v: T| keys_distinct(#[trigger] s.update(i as int, (*p, v))) by {
                        lemma_distinct_update(s, i as int, *p, v);
                    }
                }
                let pr = &mut self.pairs[i];
                return Some(&mut pr.1);
            }
            i += 1;
        }
        proof {
            lemma_map_of_contains(s, *p);
        }
        None
    }

    /// Stores `v` at `p`, returning the value it displaced, if any.
    pub fn set(&mut self, p: HexPoint, v: T) -> (r: Option<T>)
        requires
            old(self).wf(),
        ensures
            final(self).wf(),
            final(self)@ == old(self)@.insert(p, v),
            match r {
                Some(prior) => {
                    &&& old(self)@.contains_key(p)
                    &&& prior == old(self)@[p]
                    &&& final(self).entries().len() == old(self).entries().len()
                },
                None => {
                    &&& !old(self)@.contains_key(p)
                    &&& final(self).entries() == old(self).entries().push((p, v))
                },
            },
    {
        let ghost s = self.pairs@;
        let n = self.pairs.len();
        let mut i: usize = 0;
        while i < n
            invariant
                n == s.len(),
                *self == *old(self),
                s == self.pairs@,
                keys_distinct(s),
                0 <= i <= n,
                forall|j: int| 0 <= j < i ==> (#[trigger] s[j]).0 != p,
            decreases n - i,
        {
            if self.pairs[i].0 == p {
                proof {
                    lemma_map_of_index(s, i as int);
                }
                self.pairs.push((p, v));
                let pr = self.pairs.swap_remove(i);
                proof {
                    assert(self.pairs@ =~= s.update(i as int, (p, v)));
                    lemma_map_of_update(s, i as int, p, v);
                    lemma_distinct_update(s, i as int, p, v);
                }
                return Some(pr.1);
            }
            i += 1;
        }
        self.pairs.push((p, v));
        proof {
            lemma_map_of_contains(s, p);
            lemma_map_of_push(s, p, v);
            lemma_distinct_push(s, p, v);
        }
        None
    }

    /// Whether the grid holds no entries.
    pub fn is_empty(&self) -> (r: bool)
        requires
            self.wf(),
        ensures
            r == (self.entries().len() == 0),
            r == (self@ == Map::<HexPoint, T>::empty()),
    {
        proof {
            if self.entries().len() > 0 {
                lemma_map_of_index(self.entries(), 0);
            }
            if self.entries().len() == 0 {
                assert(self@ =~= Map::<HexPoint, T>::empty());
            }
        }
        self.pairs.len() == 0
    }

    /// Whether the grid is blank. A sparse grid has no third state: blank
    /// and empty coincide.
    pub fn is_blank(&self) -> (r: bool)
        requires
            self.wf(),
        ensures
            r == (self.entries().len() == 0),
            r == (self@ == Map::<HexPoint, T>::empty()),
    {
        self.is_empty()
    }

    /// The axis-wise minimum and maximum over all stored keys; nothing if
    /// the grid is empty.
    pub fn bounds(&self) -> (r: Option<(HexPoint, HexPoint)>)
        requires
            self.wf(),
        ensures
            r is Some <==> self.entries().len() > 0,
            r matches Some(b) ==> {
                &&& b.0.q as int == hex_key_min_q(self.entries())
                &&& b.0.r as int == hex_key_min_r(self.entries())
                &&& b.1.q as int == hex_key_max_q(self.entries())
                &&& b.1.r as int == hex_key_max_r(self.entries())
            },
    {
        let ghost s = self.pairs@;
        let n = self.pairs.len();
        if n == 0 {
            return None;
        }
        let first = self.pairs[0].0;
        let mut min_q = first.q;
        let mut min_r = first.r;
        let mut max_q = first.q;
        let mut max_r = first.r;
        let mut i: usize = 1;
        proof {
            assert(s.take(1).len() == 1);
            assert(s.take(1)[0] == s[0]);
        }
        while i < n
            invariant
                n == s.len(),
                s == self.pairs@,
                1 <= i <= n,
                min_q as int == hex_key_min_q(s.take(i as int)),
                min_r as int == hex_key_min_r(s.take(i as int)),
                max_q as int == hex_key_max_q(s.take(i as int)),
                max_r as int == hex_key_max_r(s.take(i as int)),
            decreases n - i,
        {
            let p = self.pairs[i].0;
            proof {
                assert(s.take(i + 1).drop_last() =~= s.take(i as int));
                assert(s.take(i + 1).last() == s[i as int]);
                assert(s.take(i + 1).len() == i + 1);
            }
            if p.q < min_q {
                min_q = p.q;
            }
            if p.r < min_r {
                min_r = p.r;
            }
            if p.q > max_q {
                max_q = p.q;
            }
            if p.r > max_r {
                max_r = p.r;
            }
            i += 1;
        }
        proof {
            assert(s.take(n as int) =~= s);
        }
        Some((HexPoint { q: min_q, r: min_r }, HexPoint { q: max_q, r: max_r }))
    }

    /// The row extent of the bounding box: `max.r - min.r + 1`; nothing
    /// if the grid is empty.
    pub fn rows(&self) -> (r: Option<isize>)
        requires
            self.wf(),
            self.entries().len() > 0 ==> hex_key_max_r(self.entries()) - hex_key_min_r(self.entries()) + 1
                <= isize::MAX,
        ensures
            r is Some <==> self.entries().len() > 0,
            r matches Some(k) ==> k == hex_key_max_r(self.entries()) - hex_key_min_r(self.entries()) + 1,
    {
        match self.bounds() {
            None => None,
            Some((lo, hi)) => {
                proof {
                    lemma_hex_key_bounds(self.entries());
                }
                Some(hi.r - lo.r + 1)
            },
        }
    }

    /// The column extent of the bounding box: `max.q - min.q + 1`;
    /// nothing if the grid is empty.
    pub fn columns(&self) -> (r: Option<isize>)
        requires
            self.wf(),
            self.entries().len() > 0 ==> hex_key_max_q(self.entries()) - hex_key_min_q(self.entries()) + 1
                <= isize::MAX,
        ensures
            r is Some <==> self.entries().len() > 0,
            r matches Some(k) ==> k == hex_key_max_q(self.entries()) - hex_key_min_q(self.entries()) + 1,
    {
        match self.bounds() {
            None => None,
            Some((lo, hi)) => {
                proof {
                    lemma_hex_key_bounds(self.entries());
                }
                Some(hi.q - lo.q + 1)
            },
        }
    }
}


impl<T> HexGrid<T> {
    /// The stored values, in entry order.
    pub fn iter(&self) -> (r: Vec<&T>)
        requires
            self.wf(),
        ensures
            r@.len() == self.entries().len(),
            forall|i: int| 0 <= i < r@.len() ==> *r@[i] == (#[trigger] self.entries()[i]).1,
    {
        let n = self.pairs.len();
        let mut r: Vec<&T> = Vec::new();
        let mut i: usize = 0;
        while i < n
            invariant
                n == self.entries().len(),
                0 <= i <= n,
                r@.len() == i,
                forall|j: int| 0 <= j < i ==> *r@[j] == (#[trigger] self.entries()[j]).1,
            decreases n - i,
        {
            r.push(&self.pairs[i].1);
            i += 1;
        }
        r
    }

    /// The stored (coordinate, value) pairs, in entry order.
    pub fn indexed_iter(&self) -> (r: Vec<(HexPoint, &T)>)
        requires
            self.wf(),
        ensures
            r@.len() == self.entries().len(),
            forall|i: int|
                0 <= i < r@.len() ==> (#[trigger] r@[i]).0 == self.entries()[i].0 && *r@[i].1
                    == self.entries()[i].1,
    {
        let n = self.pairs.len();
        let mut r: Vec<(HexPoint, &T)> = Vec::new();
        let mut i: usize = 0;
        while i < n
            invariant
                n == self.entries().len(),
                0 <= i <= n,
                r@.len() == i,
                forall|j: int|
                    0 <= j < i ==> (#[trigger] r@[j]).0 == self.entries()[j].0 && *r@[j].1
                        == self.entries()[j].1,
            decreases n - i,
        {
            let pr = &self.pairs[i];
            r.push((pr.0, &pr.1));
            i += 1;
        }
        r
    }

    /// Consumes the grid, yielding its (coordinate, value) entries.
    pub fn into_indexed_iter(self) -> (r: Vec<(HexPoint, T)>)
        ensures
            r@ == self.entries(),
    {
        self.pairs
    }

    /// Whether `f` accepts every stored value, and additionally the
    /// explicit "no value" input, which is probed once regardless of the
    /// grid's contents.
    pub fn all<F: Fn(Option<&T>) -> bool>(&self, f: F) -> (r: bool)
        requires
            self.wf(),
            forall|i: int|
                0 <= i < self.entries().len() ==> call_requires(
                    f,
                    (Some(&(#[trigger] self.entries()[i]).1),),
                ),
            call_requires(f, (None::<&T>,)),
        ensures
            r ==> (forall|i: int|
                0 <= i < self.entries().len() ==> call_ensures(
                    f,
                    (Some(&(#[trigger] self.entries()[i]).1),),
                    true,
                )) && call_ensures(f, (None::<&T>,), true),
            !r ==> (exists|i: int|
                0 <= i < self.entries().len() && call_ensures(
                    f,
                    (Some(&(#[trigger] self.entries()[i]).1),),
                    false,
                )) || call_ensures(f, (None::<&T>,), false),
    {
        let n = self.pairs.len();
        let mut i: usize = 0;
        while i < n
            invariant
                n == self.entries().len(),
                forall|j: int|
                    0 <= j < n ==> call_requires(f, (Some(&(#[trigger] self.entries()[j]).1),)),
                call_requires(f, (None::<&T>,)),
                0 <= i <= n,
                forall|j: int|
                    0 <= j < i ==> call_ensures(
                        f,
                        (Some(&(#[trigger] self.entries()[j]).1),),
                        true,
                    ),
            decreases n - i,
        {
            if !f(Some(&self.pairs[i].1)) {
                return false;
            }
            i += 1;
        }
        f(None)
    }

    /// Whether `f` accepts every stored (coordinate, value) pair.
    pub fn indexed_all<F: Fn(HexPoint, Option<&T>) -> bool>(&self, f: F) -> (r: bool)
        requires
            self.wf(),
            forall|i: int|
                0 <= i < self.entries().len() ==> call_requires(
                    f,
                    ((#[trigger] self.entries()[i]).0, Some(&self.entries()[i].1)),
                ),
        ensures
            r ==> forall|i: int|
                0 <= i < self.entries().len() ==> call_ensures(
                    f,
                    ((#[trigger] self.entries()[i]).0, Some(&self.entries()[i].1)),
                    true,
                ),
            !r ==> exists|i: int|
                0 <= i < self.entries().len() && call_ensures(
                    f,
                    ((#[trigger] self.entries()[i]).0, Some(&self.entries()[i].1)),
                    false,
                ),
    {
        let n = self.pairs.len();
        let mut i: usize = 0;
        while i < n
            invariant
                n == self.entries().len(),
                forall|j: int|
                    0 <= j < n ==> call_requires(
                        f,
                        ((#[trigger] self.entries()[j]).0, Some(&self.entries()[j].1)),
                    ),
                0 <= i <= n,
                forall|j: int|
                    0 <= j < i ==> call_ensures(
                        f,
                        ((#[trigger] self.entries()[j]).0, Some(&self.entries()[j].1)),
                        true,
                    ),
            decreases n - i,
        {
            let pr = &self.pairs[i];
            if !f(pr.0, Some(&pr.1)) {
                return false;
            }
            i += 1;
        }
        true
    }

    /// Whether `f` accepts some stored value, or failing that, the
    /// explicit "no value" input, which is probed once regardless of the
    /// grid's contents.
    pub fn any<F: Fn(Option<&T>) -> bool>(&self, f: F) -> (r: bool)
        requires
            self.wf(),
            forall|i: int|
                0 <= i < self.entries().len() ==> call_requires(
                    f,
                    (Some(&(#[trigger] self.entries()[i]).1),),
                ),
            call_requires(f, (None::<&T>,)),
        ensures
            r ==> (exists|i: int|
                0 <= i < self.entries().len() && call_ensures(
                    f,
                    (Some(&(#[trigger] self.entries()[i]).1),),
                    true,
                )) || call_ensures(f, (None::<&T>,), true),
            !r ==> (forall|i: int|
                0 <= i < self.entries().len() ==> call_ensures(
                    f,
                    (Some(&(#[trigger] self.entries()[i]).1),),
                    false,
                )) && call_ensures(f, (None::<&T>,), false),
    {
        let n = self.pairs.len();
        let mut i: usize = 0;
        while i < n
            invariant
                n == self.entries().len(),
                forall|j: int|
                    0 <= j < n ==> call_requires(f, (Some(&(#[trigger] self.entries()[j]).1),)),
                call_requires(f, (None::<&T>,)),
                0 <= i <= n,
                forall|j: int|
                    0 <= j < i ==> call_ensures(
                        f,
                        (Some(&(#[trigger] self.entries()[j]).1),),
                        false,
                    ),
            decreases n - i,
        {
            if f(Some(&self.pairs[i].1)) {
                return true;
            }
            i += 1;
        }
        f(None)
    }

    /// Whether `f` accepts some stored (coordinate, value) pair.
    pub fn indexed_any<F: Fn(HexPoint, Option<&T>) -> bool>(&self, f: F) -> (r: bool)
        requires
            self.wf(),
            forall|i: int|
                0 <= i < self.entries().len() ==> call_requires(
                    f,
                    ((#[trigger] self.entries()[i]).0, Some(&self.entries()[i].1)),
                ),
        ensures
            r ==> exists|i: int|
                0 <= i < self.entries().len() && call_ensures(
                    f,
                    ((#[trigger] self.entries()[i]).0, Some(&self.entries()[i].1)),
                    true,
                ),
            !r ==> forall|i: int|
                0 <= i < self.entries().len() ==> call_ensures(
                    f,
                    ((#[trigger] self.entries()[i]).0, Some(&self.entries()[i].1)),
                    false,
                ),
    {
        let n = self.pairs.len();
        let mut i: usize = 0;
        while i < n
            invariant
                n == self.entries().len(),
                forall|j: int|
                    0 <= j < n ==> call_requires(
                        f,
                        ((#[trigger] self.entries()[j]).0, Some(&self.entries()[j].1)),
                    ),
                0 <= i <= n,
                forall|j: int|
                    0 <= j < i ==> call_ensures(
                        f,
                        ((#[trigger] self.entries()[j]).0, Some(&self.entries()[j].1)),
                        false,
                    ),
            decreases n - i,
        {
            let pr = &self.pairs[i];
            if f(pr.0, Some(&pr.1)) {
                return true;
            }
            i += 1;
        }
        false
    }
}


impl<T> HexGrid<T> {
    /// The stored values that `f` accepts, each wrapped as "value
    /// present", in entry order. The decision sequence `bs` records one
    /// call outcome per entry; kept entries are exactly those decided
    /// `true`.
    pub fn filter<F: Fn(Option<&T>) -> bool>(&self, f: F) -> (r: Vec<Option<&T>>)
        requires
            self.wf(),
            forall|i: int|
                0 <= i < self.entries().len() ==> call_requires(
                    f,
                    (Some(&(#[trigger] self.entries()[i]).1),),
                ),
        ensures
            exists|bs: Seq<bool>|
                {
                    &&& bs.len() == self.entries().len()
                    &&& (forall|i: int|
                        0 <= i < bs.len() ==> call_ensures(
                            f,
                            (Some(&(#[trigger] self.entries()[i]).1),),
                            bs[i],
                        ))
                    &&& r@.len() == filter_by(self.entries(), bs).len()
                    &&& (forall|k: int|
                        0 <= k < r@.len() ==> ((#[trigger] r@[k]) matches Some(v) && *v
                            == filter_by(self.entries(), bs)[k].1))
                },
    {
        let ghost es = self.entries();
        let n = self.pairs.len();
        let mut r: Vec<Option<&T>> = Vec::new();
        let ghost mut bs: Seq<bool> = Seq::empty();
        let mut i: usize = 0;
        proof {
            assert(es.take(0) =~= Seq::empty());
        }
        while i < n
            invariant
                n == es.len(),
                es == self.entries(),
                forall|j: int|
                    0 <= j < n ==> call_requires(f, (Some(&(#[trigger] es[j]).1),)),
                0 <= i <= n,
                bs.len() == i,
                forall|j: int|
                    0 <= j < i ==> call_ensures(f, (Some(&(#[trigger] es[j]).1),), bs[j]),
                r@.len() == filter_by(es.take(i as int), bs).len(),
                forall|k: int|
                    0 <= k < r@.len() ==> ((#[trigger] r@[k]) matches Some(v) && *v == filter_by(
                        es.take(i as int),
                        bs,
                    )[k].1),
            decreases n - i,
        {
            let keep = f(Some(&self.pairs[i].1));
            proof {
                let bs1 = bs.push(keep);
                assert(es.take(i + 1).drop_last() =~= es.take(i as int));
                assert(bs1.drop_last() =~= bs);
                assert(es.take(i + 1).last() == es[i as int]);
                bs = bs1;
            }
            if keep {
                r.push(Some(&self.pairs[i].1));
            }
            i += 1;
        }
        proof {
            assert(es.take(n as int) =~= es);
        }
        r
    }

    /// The stored (coordinate, value) pairs that `f` accepts, in entry
    /// order.
    pub fn indexed_filter<F: Fn(HexPoint, Option<&T>) -> bool>(&self, f: F) -> (r: Vec<
        (HexPoint, Option<&T>),
    >)
        requires
            self.wf(),
            forall|i: int|
                0 <= i < self.entries().len() ==> call_requires(
                    f,
                    ((#[trigger] self.entries()[i]).0, Some(&self.entries()[i].1)),
                ),
        ensures
            exists|bs: Seq<bool>|
                {
                    &&& bs.len() == self.entries().len()
                    &&& (forall|i: int|
                        0 <= i < bs.len() ==> call_ensures(
                            f,
                            ((#[trigger] self.entries()[i]).0, Some(&self.entries()[i].1)),
                            bs[i],
                        ))
                    &&& r@.len() == filter_by(self.entries(), bs).len()
                    &&& (forall|k: int|
                        0 <= k < r@.len() ==> (#[trigger] r@[k]).0 == filter_by(
                            self.entries(),
                            bs,
                        )[k].0 && (r@[k].1 matches Some(v) && *v == filter_by(
                            self.entries(),
                            bs,
                        )[k].1))
                },
    {
        let ghost es = self.entries();
        let n = self.pairs.len();
        let mut r: Vec<(HexPoint, Option<&T>)> = Vec::new();
        let ghost mut bs: Seq<bool> = Seq::empty();
        let mut i: usize = 0;
        proof {
            assert(es.take(0) =~= Seq::empty());
        }
        while i < n
            invariant
                n == es.len(),
                es == self.entries(),
                forall|j: int|
                    0 <= j < n ==> call_requires(
                        f,
                        ((#[trigger] es[j]).0, Some(&es[j].1)),
                    ),
                0 <= i <= n,
                bs.len() == i,
                forall|j: int|
                    0 <= j < i ==> call_ensures(
                        f,
                        ((#[trigger] es[j]).0, Some(&es[j].1)),
                        bs[j],
                    ),
                r@.len() == filter_by(es.take(i as int), bs).len(),
                forall|k: int|
                    0 <= k < r@.len() ==> (#[trigger] r@[k]).0 == filter_by(
                        es.take(i as int),
                        bs,
                    )[k].0 && (r@[k].1 matches Some(v) && *v == filter_by(
                        es.take(i as int),
                        bs,
                    )[k].1),
            decreases n - i,
        {
            let pr = &self.pairs[i];
            let keep = f(pr.0, Some(&pr.1));
            proof {
                let bs1 = bs.push(keep);
                assert(es.take(i + 1).drop_last() =~= es.take(i as int));
                assert(bs1.drop_last() =~= bs);
                assert(es.take(i + 1).last() == es[i as int]);
                bs = bs1;
            }
            if keep {
                r.push((pr.0, Some(&pr.1)));
            }
            i += 1;
        }
        proof {
            assert(es.take(n as int) =~= es);
        }
        r
    }

    /// Keeps only the entries whose value `f` accepts; the others are
    /// removed from the grid.
    pub fn retain<F: Fn(Option<&T>) -> bool>(&mut self, f: F)
        requires
            old(self).wf(),
            forall|i: int|
                0 <= i < old(self).entries().len() ==> call_requires(
                    f,
                    (Some(&(#[trigger] old(self).entries()[i]).1),),
                ),
        ensures
            final(self).wf(),
            exists|bs: Seq<bool>|
                {
                    &&& bs.len() == old(self).entries().len()
                    &&& (forall|i: int|
                        0 <= i < bs.len() ==> call_ensures(
                            f,
                            (Some(&(#[trigger] old(self).entries()[i]).1),),
                            bs[i],
                        ))
                    &&& final(self).entries() == filter_by(old(self).entries(), bs)
                },
    {
        let ghost es = self.entries();
        let mut tmp: Vec<(HexPoint, T)> = Vec::new();
        core::mem::swap(&mut self.pairs, &mut tmp);
        let n = tmp.len();
        let mut kept: Vec<(HexPoint, T)> = Vec::new();
        let ghost mut bs: Seq<bool> = Seq::empty();
        let mut i: usize = 0;
        proof {
            assert(es.take(0) =~= Seq::empty());
        }
        while i < n
            invariant
                n == es.len(),
                tmp@ == es.skip(i as int),
                forall|j: int|
                    0 <= j < n ==> call_requires(f, (Some(&(#[trigger] es[j]).1),)),
                0 <= i <= n,
                bs.len() == i,
                forall|j: int|
                    0 <= j < i ==> call_ensures(f, (Some(&(#[trigger] es[j]).1),), bs[j]),
                kept@ == filter_by(es.take(i as int), bs),
            decreases n - i,
        {
            proof {
                assert(es.skip(i as int)[0] == es[i as int]);
                assert(es.skip(i as int).remove(0) =~= es.skip(i + 1));
            }
            let pr = tmp.remove(0);
            let keep = f(Some(&pr.1));
            proof {
                let bs1 = bs.push(keep);
                assert(es.take(i + 1).drop_last() =~= es.take(i as int));
                assert(bs1.drop_last() =~= bs);
                assert(es.take(i + 1).last() == es[i as int]);
                bs = bs1;
            }
            if keep {
                kept.push(pr);
                proof {
                    assert(kept@ =~= filter_by(es.take(i + 1), bs));
                }
            } else {
                proof {
                    assert(kept@ =~= filter_by(es.take(i + 1), bs));
                }
            }
            i += 1;
        }
        self.pairs = kept;
        proof {
            assert(es.take(n as int) =~= es);
            lemma_distinct_filter_by(es, bs);
        }
    }

    /// Keeps only the entries whose (coordinate, value) pair `f` accepts.
    pub fn indexed_retain<F: Fn(HexPoint, Option<&T>) -> bool>(&mut self, f: F)
        requires
            old(self).wf(),
            forall|i: int|
                0 <= i < old(self).entries().len() ==> call_requires(
                    f,
                    ((#[trigger] old(self).entries()[i]).0, Some(&old(self).entries()[i].1)),
                ),
        ensures
            final(self).wf(),
            exists|bs: Seq<bool>|
                {
                    &&& bs.len() == old(self).entries().len()
                    &&& (forall|i: int|
                        0 <= i < bs.len() ==> call_ensures(
                            f,
                            (
                                (#[trigger] old(self).entries()[i]).0,
                                Some(&old(self).entries()[i].1),
                            ),
                            bs[i],
                        ))
                    &&& final(self).entries() == filter_by(old(self).entries(), bs)
                },
    {
        let ghost es = self.entries();
        let mut tmp: Vec<(HexPoint, T)> = Vec::new();
        core::mem::swap(&mut self.pairs, &mut tmp);
        let n = tmp.len();
        let mut kept: Vec<(HexPoint, T)> = Vec::new();
        let ghost mut bs: Seq<bool> = Seq::empty();
        let mut i: usize = 0;
        proof {
            assert(es.take(0) =~= Seq::empty());
        }
        while i < n
            invariant
                n == es.len(),
                tmp@ == es.skip(i as int),
                forall|j: int|
                    0 <= j < n ==> call_requires(
                        f,
                        ((#[trigger] es[j]).0, Some(&es[j].1)),
                    ),
                0 <= i <= n,
                bs.len() == i,
                forall|j: int|
                    0 <= j < i ==> call_ensures(
                        f,
                        ((#[trigger] es[j]).0, Some(&es[j].1)),
                        bs[j],
                    ),
                kept@ == filter_by(es.take(i as int), bs),
            decreases n - i,
        {
            proof {
                assert(es.skip(i as int)[0] == es[i as int]);
                assert(es.skip(i as int).remove(0) =~= es.skip(i + 1));
            }
            let pr = tmp.remove(0);
            let keep = f(pr.0, Some(&pr.1));
            proof {
                let bs1 = bs.push(keep);
                assert(es.take(i + 1).drop_last() =~= es.take(i as int));
                assert(bs1.drop_last() =~= bs);
                assert(es.take(i + 1).last() == es[i as int]);
                bs = bs1;
            }
            if keep {
                kept.push(pr);
                proof {
                    assert(kept@ =~= filter_by(es.take(i + 1), bs));
                }
            } else {
                proof {
                    assert(kept@ =~= filter_by(es.take(i + 1), bs));
                }
            }
            i += 1;
        }
        self.pairs = kept;
        proof {
            assert(es.take(n as int) =~= es);
            lemma_distinct_filter_by(es, bs);
        }
    }

    /// One call outcome of `f` per stored value, in entry order.
    pub fn map<U, F: Fn(Option<&T>) -> Option<U>>(&self, f: F) -> (r: Vec<Option<U>>)
        requires
            self.wf(),
            forall|i: int|
                0 <= i < self.entries().len() ==> call_requires(
                    f,
                    (Some(&(#[trigger] self.entries()[i]).1),),
                ),
        ensures
            r@.len() == self.entries().len(),
            forall|i: int|
                0 <= i < r@.len() ==> call_ensures(
                    f,
                    (Some(&(#[trigger] self.entries()[i]).1),),
                    r@[i],
                ),
    {
        let n = self.pairs.len();
        let mut r: Vec<Option<U>> = Vec::new();
        let mut i: usize = 0;
        while i < n
            invariant
                n == self.entries().len(),
                forall|j: int|
                    0 <= j < n ==> call_requires(f, (Some(&(#[trigger] self.entries()[j]).1),)),
                0 <= i <= n,
                r@.len() == i,
                forall|j: int|
                    0 <= j < i ==> call_ensures(
                        f,
                        (Some(&(#[trigger] self.entries()[j]).1),),
                        r@[j],
                    ),
            decreases n - i,
        {
            r.push(f(Some(&self.pairs[i].1)));
            i += 1;
        }
        r
    }

    /// Each coordinate with one call outcome of `f` for its pair, in
    /// entry order.
    pub fn indexed_map<U, F: Fn(HexPoint, Option<&T>) -> Option<U>>(&self, f: F) -> (r: Vec<
        (HexPoint, Option<U>),
    >)
        requires
            self.wf(),
            forall|i: int|
                0 <= i < self.entries().len() ==> call_requires(
                    f,
                    ((#[trigger] self.entries()[i]).0, Some(&self.entries()[i].1)),
                ),
        ensures
            r@.len() == self.entries().len(),
            forall|i: int|
                0 <= i < r@.len() ==> (#[trigger] r@[i]).0 == self.entries()[i].0 && call_ensures(
                    f,
                    (self.entries()[i].0, Some(&self.entries()[i].1)),
                    r@[i].1,
                ),
    {
        let n = self.pairs.len();
        let mut r: Vec<(HexPoint, Option<U>)> = Vec::new();
        let mut i: usize = 0;
        while i < n
            invariant
                n == self.entries().len(),
                forall|j: int|
                    0 <= j < n ==> call_requires(
                        f,
                        ((#[trigger] self.entries()[j]).0, Some(&self.entries()[j].1)),
                    ),
                0 <= i <= n,
                r@.len() == i,
                forall|j: int|
                    0 <= j < i ==> (#[trigger] r@[j]).0 == self.entries()[j].0 && call_ensures(
                        f,
                        (self.entries()[j].0, Some(&self.entries()[j].1)),
                        r@[j].1,
                    ),
            decreases n - i,
        {
            let pr = &self.pairs[i];
            r.push((pr.0, f(pr.0, Some(&pr.1))));
            i += 1;
        }
        r
    }

    /// Recomputes every stored value: each replacement is computed from
    /// the value the grid held *before* the update began, so an update
    /// rule never observes a sibling cell in its post-update state. A
    /// `None` outcome keeps the old value; keys are untouched.
    pub fn update<F: Fn(Option<&T>) -> Option<T>>(&mut self, f: F)
        requires
            old(self).wf(),
            forall|i: int|
                0 <= i < old(self).entries().len() ==> call_requires(
                    f,
                    (Some(&(#[trigger] old(self).entries()[i]).1),),
                ),
        ensures
            final(self).wf(),
            final(self).entries().len() == old(self).entries().len(),
            forall|i: int|
                0 <= i < old(self).entries().len() ==> (#[trigger] final(self).entries()[i]).0
                    == old(self).entries()[i].0,
            forall|i: int|
                0 <= i < old(self).entries().len() ==> call_ensures(
                    f,
                    (Some(&(#[trigger] old(self).entries()[i]).1),),
                    Some(final(self).entries()[i].1),
                ) || (call_ensures(f, (Some(&old(self).entries()[i].1),), None::<T>)
                    && final(self).entries()[i].1 == old(self).entries()[i].1),
            forall|k: HexPoint| final(self)@.contains_key(k) <==> old(self)@.contains_key(k),
    {
        let ghost es = self.entries();
        let n = self.pairs.len();
        let mut i: usize = 0;
        while i < n
            invariant
                n == es.len(),
                es == old(self).entries(),
                self.pairs@.len() == n,
                forall|j: int|
                    0 <= j < n ==> call_requires(f, (Some(&(#[trigger] es[j]).1),)),
                0 <= i <= n,
                forall|j: int| i <= j < n ==> #[trigger] self.pairs@[j] == es[j],
                forall|j: int| 0 <= j < i ==> (#[trigger] self.pairs@[j]).0 == es[j].0,
                forall|j: int|
                    0 <= j < i ==> call_ensures(
                        f,
                        (Some(&(#[trigger] es[j]).1),),
                        Some(self.pairs@[j].1),
                    ) || (call_ensures(f, (Some(&es[j].1),), None::<T>) && self.pairs@[j].1
                        == es[j].1),
            decreases n - i,
        {
            let outcome = f(Some(&self.pairs[i].1));
            match outcome {
                Some(nv) => {
                    let pr = &mut self.pairs[i];
                    pr.1 = nv;
                },
                None => {},
            }
            i += 1;
        }
        proof {
            assert(keys_distinct(self.pairs@)) by {
                assert(forall|a: int, b: int|
                    0 <= a < b < self.pairs@.len() ==> (#[trigger] self.pairs@[a]).0 != (
                    #[trigger] self.pairs@[b]).0);
            }
            assert forall|k: HexPoint|
                map_of(self.pairs@).contains_key(k) <==> map_of(es).contains_key(k) by {
                lemma_map_of_contains(self.pairs@, k);
                lemma_map_of_contains(es, k);
                if exists|j: int| 0 <= j < self.pairs@.len() && (#[trigger] self.pairs@[j]).0
                    == k {
                    let j = choose|j: int|
                        0 <= j < self.pairs@.len() && (#[trigger] self.pairs@[j]).0 == k;
                    assert(es[j].0 == k);
                }
                if exists|j: int| 0 <= j < es.len() && (#[trigger] es[j]).0 == k {
                    let j = choose|j: int| 0 <= j < es.len() && (#[trigger] es[j]).0 == k;
                    assert(self.pairs@[j].0 == k);
                }
            }
        }
    }

    /// Recomputes every stored value from its coordinate and the value
    /// held *before* the update began, as `update` does.
    pub fn indexed_update<F: Fn(HexPoint, Option<&T>) -> Option<T>>(&mut self, f: F)
        requires
            old(self).wf(),
            forall|i: int|
                0 <= i < old(self).entries().len() ==> call_requires(
                    f,
                    ((#[trigger] old(self).entries()[i]).0, Some(&old(self).entries()[i].1)),
                ),
        ensures
            final(self).wf(),
            final(self).entries().len() == old(self).entries().len(),
            forall|i: int|
                0 <= i < old(self).entries().len() ==> (#[trigger] final(self).entries()[i]).0
                    == old(self).entries()[i].0,
            forall|i: int|
                0 <= i < old(self).entries().len() ==> call_ensures(
                    f,
                    ((#[trigger] old(self).entries()[i]).0, Some(&old(self).entries()[i].1)),
                    Some(final(self).entries()[i].1),
                ) || (call_ensures(
                    f,
                    (old(self).entries()[i].0, Some(&old(self).entries()[i].1)),
                    None::<T>,
                ) && final(self).entries()[i].1 == old(self).entries()[i].1),
            forall|k: HexPoint| final(self)@.contains_key(k) <==> old(self)@.contains_key(k),
    {
        let ghost es = self.entries();
        let n = self.pairs.len();
        let mut i: usize = 0;
        while i < n
            invariant
                n == es.len(),
                es == old(self).entries(),
                self.pairs@.len() == n,
                forall|j: int|
                    0 <= j < n ==> call_requires(
                        f,
                        ((#[trigger] es[j]).0, Some(&es[j].1)),
                    ),
                0 <= i <= n,
                forall|j: int| i <= j < n ==> #[trigger] self.pairs@[j] == es[j],
                forall|j: int| 0 <= j < i ==> (#[trigger] self.pairs@[j]).0 == es[j].0,
                forall|j: int|
                    0 <= j < i ==> call_ensures(
                        f,
                        ((#[trigger] es[j]).0, Some(&es[j].1)),
                        Some(self.pairs@[j].1),
                    ) || (call_ensures(f, (es[j].0, Some(&es[j].1)), None::<T>)
                        && self.pairs@[j].1 == es[j].1),
            decreases n - i,
        {
            let pr0 = self.pairs[i].0;
            let outcome = f(pr0, Some(&self.pairs[i].1));
            match outcome {
                Some(nv) => {
                    let pr = &mut self.pairs[i];
                    pr.1 = nv;
                },
                None => {},
            }
            i += 1;
        }
        proof {
            assert(keys_distinct(self.pairs@)) by {
                assert(forall|a: int, b: int|
                    0 <= a < b < self.pairs@.len() ==> (#[trigger] self.pairs@[a]).0 != (
                    #[trigger] self.pairs@[b]).0);
            }
            assert forall|k: HexPoint|
                map_of(self.pairs@).contains_key(k) <==> map_of(es).contains_key(k) by {
                lemma_map_of_contains(self.pairs@, k);
                lemma_map_of_contains(es, k);
                if exists|j: int| 0 <= j < self.pairs@.len() && (#[trigger] self.pairs@[j]).0
                    == k {
                    let j = choose|j: int|
                        0 <= j < self.pairs@.len() && (#[trigger] self.pairs@[j]).0 == k;
                    assert(es[j].0 == k);
                }
                if exists|j: int| 0 <= j < es.len() && (#[trigger] es[j]).0 == k {
                    let j = choose|j: int| 0 <= j < es.len() && (#[trigger] es[j]).0 == k;
                    assert(self.pairs@[j].0 == k);
                }
            }
        }
    }
}


impl<T> HexGrid<T> {
    /// The values stored at the six neighboring hexes of `p`, in the
    /// fixed ring order; absent neighbors are omitted, never
    /// materialized.
    pub fn neighbors(&self, p: HexPoint) -> (r: Vec<&T>)
        requires
            self.wf(),
            isize::MIN < p.q < isize::MAX,
            isize::MIN < p.r < isize::MAX,
        ensures
            r@.len() == present_keys(hex_ring(p), self@).len(),
            forall|k: int|
                0 <= k < r@.len() ==> self@.contains_key(
                    #[trigger] present_keys(hex_ring(p), self@)[k],
                ) && *r@[k] == self@[present_keys(hex_ring(p), self@)[k]],
    {
        let cands = p.neighbors();
        let ghost cs = hex_ring(p);
        let mut r: Vec<&T> = Vec::new();
        let mut j: usize = 0;
        proof {
            assert(cs.take(0) =~= Seq::empty());
        }
        while j < 6
            invariant
                self.wf(),
                cands@ == cs,
                cs.len() == 6,
                0 <= j <= 6,
                r@.len() == present_keys(cs.take(j as int), self@).len(),
                forall|k: int|
                    0 <= k < r@.len() ==> self@.contains_key(
                        #[trigger] present_keys(cs.take(j as int), self@)[k],
                    ) && *r@[k] == self@[present_keys(cs.take(j as int), self@)[k]],
            decreases 6 - j,
        {
            proof {
                assert(cs.take(j + 1).drop_last() =~= cs.take(j as int));
                assert(cs.take(j + 1).last() == cs[j as int]);
            }
            match self.get(&cands[j]) {
                Some(v) => {
                    r.push(v);
                },
                None => {},
            }
            j += 1;
        }
        proof {
            assert(cs.take(6) =~= cs);
        }
        r
    }

    /// The coordinates of the six neighboring hexes of `p` that hold a
    /// value, in the fixed ring order.
    pub fn indexed_neighbors(&self, p: HexPoint) -> (r: Vec<HexPoint>)
        requires
            self.wf(),
            isize::MIN < p.q < isize::MAX,
            isize::MIN < p.r < isize::MAX,
        ensures
            r@ == present_keys(hex_ring(p), self@),
    {
        let cands = p.neighbors();
        let ghost cs = hex_ring(p);
        let mut r: Vec<HexPoint> = Vec::new();
        let mut j: usize = 0;
        proof {
            assert(cs.take(0) =~= Seq::empty());
        }
        while j < 6
            invariant
                self.wf(),
                cands@ == cs,
                cs.len() == 6,
                0 <= j <= 6,
                r@ == present_keys(cs.take(j as int), self@),
            decreases 6 - j,
        {
            proof {
                assert(cs.take(j + 1).drop_last() =~= cs.take(j as int));
                assert(cs.take(j + 1).last() == cs[j as int]);
            }
            if self.get(&cands[j]).is_some() {
                r.push(cands[j]);
                proof {
                    assert(r@ =~= present_keys(cs.take(j + 1), self@));
                }
            } else {
                proof {
                    assert(r@ =~= present_keys(cs.take(j + 1), self@));
                }
            }
            j += 1;
        }
        proof {
            assert(cs.take(6) =~= cs);
        }
        r
    }

}

impl<T> Default for HexGrid<T> {
    /// The empty grid.
    fn default() -> (g: Self)
        ensures
            g.wf(),
            g@ == Map::<HexPoint, T>::empty(),
            g.entries().len() == 0,
    {
        HexGrid::new()
    }
}

} // verus!

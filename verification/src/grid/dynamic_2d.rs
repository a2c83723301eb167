//! A sparse two-dimensional grid: a coordinate-to-value mapping keyed by
//! signed `Point`s. Absence of a key is absence of a cell; the grid grows
//! on demand and is never resized or compacted.

use vstd::prelude::*;

verus! {

use crate::grid::model::{
    filter_by, keys_distinct, lemma_distinct_filter_by, lemma_distinct_push,
    lemma_distinct_update, lemma_map_of_contains, lemma_map_of_index, lemma_map_of_push,
    lemma_map_of_update, map_of,
};
use crate::grid::model::present_keys;
use crate::text::{
    join_lines, join_text, lemma_max_line_len, line_views, max_line_len, split_lines, split_text,
};
use crate::point::signed::{cardinal_points, ring_points, Point};

/// A sparse grid of values addressed by signed 2D points. The backing
/// entry sequence holds each stored key exactly once; its map reading
/// (`view`) is the grid's meaning, and the entry order is the iteration
/// order.
pub struct Dynamic2DGrid<T> {
    pairs: Vec<(Point, T)>,
}

/// The smallest row among the keys of `s`.
pub open spec fn key_min_r<T>(s: Seq<(Point, T)>) -> int
    recommends
        s.len() > 0,
    decreases s.len(),
{
    if s.len() <= 1 {
        s[0].0.r as int
    } else if s.last().0.r < key_min_r(s.drop_last()) {
        s.last().0.r as int
    } else {
        key_min_r(s.drop_last())
    }
}

/// The smallest column among the keys of `s`.
pub open spec fn key_min_c<T>(s: Seq<(Point, T)>) -> int
    recommends
        s.len() > 0,
    decreases s.len(),
{
    if s.len() <= 1 {
        s[0].0.c as int
    } else if s.last().0.c < key_min_c(s.drop_last()) {
        s.last().0.c as int
    } else {
        key_min_c(s.drop_last())
    }
}

/// The largest row among the keys of `s`.
pub open spec fn key_max_r<T>(s: Seq<(Point, T)>) -> int
    recommends
        s.len() > 0,
    decreases s.len(),
{
    if s.len() <= 1 {
        s[0].0.r as int
    } else if s.last().0.r > key_max_r(s.drop_last()) {
        s.last().0.r as int
    } else {
        key_max_r(s.drop_last())
    }
}

/// The largest column among the keys of `s`.
pub open spec fn key_max_c<T>(s: Seq<(Point, T)>) -> int
    recommends
        s.len() > 0,
    decreases s.len(),
{
    if s.len() <= 1 {
        s[0].0.c as int
    } else if s.last().0.c > key_max_c(s.drop_last()) {
        s.last().0.c as int
    } else {
        key_max_c(s.drop_last())
    }
}

/// The four key extrema bound every stored key and are attained by one.
pub proof fn lemma_key_bounds<T>(s: Seq<(Point, T)>)
    requires
        s.len() > 0,
    ensures
        forall|i: int|
            0 <= i < s.len() ==> key_min_r(s) <= (#[trigger] s[i]).0.r <= key_max_r(s),
        forall|i: int|
            0 <= i < s.len() ==> key_min_c(s) <= (#[trigger] s[i]).0.c <= key_max_c(s),
        exists|i: int| 0 <= i < s.len() && (#[trigger] s[i]).0.r == key_min_r(s),
        exists|i: int| 0 <= i < s.len() && (#[trigger] s[i]).0.c == key_min_c(s),
        exists|i: int| 0 <= i < s.len() && (#[trigger] s[i]).0.r == key_max_r(s),
        exists|i: int| 0 <= i < s.len() && (#[trigger] s[i]).0.c == key_max_c(s),
    decreases s.len(),
{
    if s.len() > 1 {
        lemma_key_bounds(s.drop_last());
        assert forall|i: int|
            0 <= i < s.len() implies key_min_r(s) <= (#[trigger] s[i]).0.r <= key_max_r(s)
            && key_min_c(s) <= s[i].0.c <= key_max_c(s) by {
            if i < s.len() - 1 {
                assert(s.drop_last()[i] == s[i]);
            }
        }
        if key_min_r(s) != s.last().0.r {
            let i = choose|i: int|
                0 <= i < s.drop_last().len() && (#[trigger] s.drop_last()[i]).0.r == key_min_r(
                    s.drop_last(),
                );
            assert(s[i].0.r == key_min_r(s));
        } else {
            assert(s[s.len() - 1].0.r == key_min_r(s));
        }
        if key_min_c(s) != s.last().0.c {
            let i = choose|i: int|
                0 <= i < s.drop_last().len() && (#[trigger] s.drop_last()[i]).0.c == key_min_c(
                    s.drop_last(),
                );
            assert(s[i].0.c == key_min_c(s));
        } else {
            assert(s[s.len() - 1].0.c == key_min_c(s));
        }
        if key_max_r(s) != s.last().0.r {
            let i = choose|i: int|
                0 <= i < s.drop_last().len() && (#[trigger] s.drop_last()[i]).0.r == key_max_r(
                    s.drop_last(),
                );
            assert(s[i].0.r == key_max_r(s));
        } else {
            assert(s[s.len() - 1].0.r == key_max_r(s));
        }
        if key_max_c(s) != s.last().0.c {
            let i = choose|i: int|
                0 <= i < s.drop_last().len() && (#[trigger] s.drop_last()[i]).0.c == key_max_c(
                    s.drop_last(),
                );
            assert(s[i].0.c == key_max_c(s));
        } else {
            assert(s[s.len() - 1].0.c == key_max_c(s));
        }
    } else {
        assert(s[0].0.r == key_min_r(s));
    }
}

impl<T> View for Dynamic2DGrid<T> {
    type V = Map<Point, T>;

    open spec fn view(&self) -> Map<Point, T> {
        map_of(self.entries())
    }
}

impl<T> Dynamic2DGrid<T> {
    /// The backing entry sequence: each stored (key, value) pair once, in
    /// iteration order.
    pub closed spec fn entries(&self) -> Seq<(Point, T)> {
        self.pairs@
    }

    /// Well-formedness: no key occurs twice. Constructors establish it
    /// and every method preserves it.
    pub closed spec fn wf(&self) -> bool {
        keys_distinct(self.pairs@)
    }

    /// An empty sparse grid.
    pub fn new() -> (g: Self)
        ensures
            g.wf(),
            g@ == Map::<Point, T>::empty(),
            g.entries().len() == 0,
    {
        Dynamic2DGrid { pairs: Vec::new() }
    }

    /// A grid holding the given entries, inserted in order; a later pair
    /// with the same key overwrites an earlier one.
    pub fn from_pairs(v: Vec<(Point, T)>) -> (g: Self)
        ensures
            g.wf(),
            g@ == map_of(v@),
    {
        let mut g = Dynamic2DGrid::new();
        let n = v.len();
        let ghost vs = v@;
        let mut v = v;
        let mut i: usize = 0;
        proof {
            assert(vs.take(0) =~= Seq::empty());
        }
        while i < n
            invariant
                n == vs.len(),
                v@ == vs.skip(i as int),
                0 <= i <= n,
                g.wf(),
                g@ == map_of(vs.take(i as int)),
            decreases n - i,
        {
            let (p, val) = v.remove(0);
            proof {
                assert(vs.skip(i as int)[0] == vs[i as int]);
                assert(vs.skip(i as int).remove(0) =~= vs.skip(i + 1));
                assert(vs.take(i + 1).drop_last() =~= vs.take(i as int));
                assert(vs.take(i + 1).last() == vs[i as int]);
            }
            g.set(p, val);
            i += 1;
        }
        proof {
            assert(vs.take(n as int) =~= vs);
        }
        g
    }

    /// Looks a coordinate up, returning the stored value if the cell is
    /// present.
    pub fn get(&self, p: &Point) -> (r: Option<&T>)
        requires
            self.wf(),
        ensures
            match r {
                Some(v) => self@.contains_key(*p) && *v == self@[*p],
                None => !self@.contains_key(*p),
            },
    {
        let ghost s = self.pairs@;
        let n = self.pairs.len();
        let mut i: usize = 0;
        while i < n
            invariant
                n == s.len(),
                s == self.pairs@,
                keys_distinct(s),
                0 <= i <= n,
                forall|j: int| 0 <= j < i ==> (#[trigger] s[j]).0 != *p,
            decreases n - i,
        {
            if self.pairs[i].0 == *p {
                proof {
                    lemma_map_of_index(s, i as int);
                }
                return Some(&self.pairs[i].1);
            }
            i += 1;
        }
        proof {
            lemma_map_of_contains(s, *p);
        }
        None
    }

    /// Looks a coordinate up for mutation. Writing through the returned
    /// reference updates the stored value at `p` and nothing else.
    pub fn get_mut(&mut self, p: &Point) -> (r: Option<&mut T>)
        requires
            old(self).wf(),
        ensures
            final(self).wf(),
            match r {
                Some(m) => {
                    &&& old(self)@.contains_key(*p)
                    &&& *m == old(self)@[*p]
                    &&& final(self)@ == old(self)@.insert(*p, *final(m))
                    &&& final(self).entries().len() == old(self).entries().len()
                },
                None => {
                    &&& !old(self)@.contains_key(*p)
                    &&& *final(self) == *old(self)
                },
            },
    {
        let ghost s = self.pairs@;
        let n = self.pairs.len();
        let mut i: usize = 0;
        while i < n
            invariant
                n == s.len(),
                *self == *old(self),
                s == self.pairs@,
                keys_distinct(s),
                0 <= i <= n,
                forall|j: int| 0 <= j < i ==> (#[trigger] s[j]).0 != *p,
            decreases n - i,
        {
            if self.pairs[i].0 == *p {
                proof {
                    lemma_map_of_index(s, i as int);
                    assert forall|v: T| #[trigger]
                        map_of(s.update(i as int, (*p, v))) == map_of(s).insert(*p, v) by {
                        lemma_map_of_update(s, i as int, *p, v);
                    }
                    assert forall|v: T| keys_distinct(#[trigger] s.update(i as int, (*p, v))) by {
                        lemma_distinct_update(s, i as int, *p, v);
                    }
                }
                let pr = &mut self.pairs[i];
                return Some(&mut pr.1);
            }
            i += 1;
        }
        proof {
            lemma_map_of_contains(s, *p);
        }
        None
    }

    /// Stores `v` at `p`, returning the value it displaced, if any.
    pub fn set(&mut self, p: Point, v: T) -> (r: Option<T>)
        requires
            old(self).wf(),
        ensures
            final(self).wf(),
            final(self)@ == old(self)@.insert(p, v),
            match r {
                Some(prior) => {
                    &&& old(self)@.contains_key(p)
                    &&& prior == old(self)@[p]
                    &&& final(self).entries().len() == old(self).entries().len()
                },
                None => {
                    &&& !old(self)@.contains_key(p)
                    &&& final(self).entries() == old(self).entries().push((p, v))
                },
            },
    {
        let ghost s = self.pairs@;
        let n = self.pairs.len();
        let mut i: usize = 0;
        while i < n
            invariant
                n == s.len(),
                *self == *old(self),
                s == self.pairs@,
                keys_distinct(s),
                0 <= i <= n,
                forall|j: int| 0 <= j < i ==> (#[trigger] s[j]).0 != p,
            decreases n - i,
        {
            if self.pairs[i].0 == p {
                proof {
                    lemma_map_of_index(s, i as int);
                }
                self.pairs.push((p, v));
                let pr = self.pairs.swap_remove(i);
                proof {
                    assert(self.pairs@ =~= s.update(i as int, (p, v)));
                    lemma_map_of_update(s, i as int, p, v);
                    lemma_distinct_update(s, i as int, p, v);
                }
                return Some(pr.1);
            }
            i += 1;
        }
        self.pairs.push((p, v));
        proof {
            lemma_map_of_contains(s, p);
            lemma_map_of_push(s, p, v);
            lemma_distinct_push(s, p, v);
        }
        None
    }

    /// Whether the grid holds no entries.
    pub fn is_empty(&self) -> (r: bool)
        requires
            self.wf(),
        ensures
            r == (self.entries().len() == 0),
            r == (self@ == Map::<Point, T>::empty()),
    {
        proof {
            if self.entries().len() > 0 {
                lemma_map_of_index(self.entries(), 0);
            }
            if self.entries().len() == 0 {
                assert(self@ =~= Map::<Point, T>::empty());
            }
        }
        self.pairs.len() == 0
    }

    /// Whether the grid is blank. A sparse grid has no third state: blank
    /// and empty coincide.
    pub fn is_blank(&self) -> (r: bool)
        requires
            self.wf(),
        ensures
            r == (self.entries().len() == 0),
            r == (self@ == Map::<Point, T>::empty()),
    {
        self.is_empty()
    }

    /// The axis-wise minimum and maximum over all stored keys; nothing if
    /// the grid is empty.
    pub fn bounds(&self) -> (r: Option<(Point, Point)>)
        requires
            self.wf(),
        ensures
            r is Some <==> self.entries().len() > 0,
            r matches Some(b) ==> {
                &&& b.0.r as int == key_min_r(self.entries())
                &&& b.0.c as int == key_min_c(self.entries())
                &&& b.1.r as int == key_max_r(self.entries())
                &&& b.1.c as int == key_max_c(self.entries())
            },
    {
        let ghost s = self.pairs@;
        let n = self.pairs.len();
        if n == 0 {
            return None;
        }
        let first = self.pairs[0].0;
        let mut min_r = first.r;
        let mut min_c = first.c;
        let mut max_r = first.r;
        let mut max_c = first.c;
        let mut i: usize = 1;
        proof {
            assert(s.take(1).len() == 1);
            assert(s.take(1)[0] == s[0]);
        }
        while i < n
            invariant
                n == s.len(),
                s == self.pairs@,
                1 <= i <= n,
                min_r as int == key_min_r(s.take(i as int)),
                min_c as int == key_min_c(s.take(i as int)),
                max_r as int == key_max_r(s.take(i as int)),
                max_c as int == key_max_c(s.take(i as int)),
            decreases n - i,
        {
            let p = self.pairs[i].0;
            proof {
                assert(s.take(i + 1).drop_last() =~= s.take(i as int));
                assert(s.take(i + 1).last() == s[i as int]);
                assert(s.take(i + 1).len() == i + 1);
            }
            if p.r < min_r {
                min_r = p.r;
            }
            if p.c < min_c {
                min_c = p.c;
            }
            if p.r > max_r {
                max_r = p.r;
            }
            if p.c > max_c {
                max_c = p.c;
            }
            i += 1;
        }
        proof {
            assert(s.take(n as int) =~= s);
        }
        Some((Point { r: min_r, c: min_c }, Point { r: max_r, c: max_c }))
    }

    /// The row extent of the bounding box: `max.r - min.r + 1`; nothing
    /// if the grid is empty.
    pub fn rows(&self) -> (r: Option<isize>)
        requires
            self.wf(),
            self.entries().len() > 0 ==> key_max_r(self.entries()) - key_min_r(self.entries()) + 1
                <= isize::MAX,
        ensures
            r is Some <==> self.entries().len() > 0,
            r matches Some(k) ==> k == key_max_r(self.entries()) - key_min_r(self.entries()) + 1,
    {
        match self.bounds() {
            None => None,
            Some((lo, hi)) => {
                proof {
                    lemma_key_bounds(self.entries());
                }
                Some(hi.r - lo.r + 1)
            },
        }
    }

    /// The column extent of the bounding box: `max.c - min.c + 1`;
    /// nothing if the grid is empty.
    pub fn columns(&self) -> (r: Option<isize>)
        requires
            self.wf(),
            self.entries().len() > 0 ==> key_max_c(self.entries()) - key_min_c(self.entries()) + 1
                <= isize::MAX,
        ensures
            r is Some <==> self.entries().len() > 0,
            r matches Some(k) ==> k == key_max_c(self.entries()) - key_min_c(self.entries()) + 1,
    {
        match self.bounds() {
            None => None,
            Some((lo, hi)) => {
                proof {
                    lemma_key_bounds(self.entries());
                }
                Some(hi.c - lo.c + 1)
            },
        }
    }
}


impl<T> Dynamic2DGrid<T> {
    /// The stored values, in entry order.
    pub fn iter(&self) -> (r: Vec<&T>)
        requires
            self.wf(),
        ensures
            r@.len() == self.entries().len(),
            forall|i: int| 0 <= i < r@.len() ==> *r@[i] == (#[trigger] self.entries()[i]).1,
    {
        let n = self.pairs.len();
        let mut r: Vec<&T> = Vec::new();
        let mut i: usize = 0;
        while i < n
            invariant
                n == self.entries().len(),
                0 <= i <= n,
                r@.len() == i,
                forall|j: int| 0 <= j < i ==> *r@[j] == (#[trigger] self.entries()[j]).1,
            decreases n - i,
        {
            r.push(&self.pairs[i].1);
            i += 1;
        }
        r
    }

    /// The stored (coordinate, value) pairs, in entry order.
    pub fn indexed_iter(&self) -> (r: Vec<(Point, &T)>)
        requires
            self.wf(),
        ensures
            r@.len() == self.entries().len(),
            forall|i: int|
                0 <= i < r@.len() ==> (#[trigger] r@[i]).0 == self.entries()[i].0 && *r@[i].1
                    == self.entries()[i].1,
    {
        let n = self.pairs.len();
        let mut r: Vec<(Point, &T)> = Vec::new();
        let mut i: usize = 0;
        while i < n
            invariant
                n == self.entries().len(),
                0 <= i <= n,
                r@.len() == i,
                forall|j: int|
                    0 <= j < i ==> (#[trigger] r@[j]).0 == self.entries()[j].0 && *r@[j].1
                        == self.entries()[j].1,
            decreases n - i,
        {
            let pr = &self.pairs[i];
            r.push((pr.0, &pr.1));
            i += 1;
        }
        r
    }

    /// Consumes the grid, yielding its (coordinate, value) entries.
    pub fn into_indexed_iter(self) -> (r: Vec<(Point, T)>)
        ensures
            r@ == self.entries(),
    {
        self.pairs
    }

    /// Whether `f` accepts every stored value, and additionally the
    /// explicit "no value" input, which is probed once regardless of the
    /// grid's contents.
    pub fn all<F: Fn(Option<&T>) -> bool>(&self, f: F) -> (r: bool)
        requires
            self.wf(),
            forall|i: int|
                0 <= i < self.entries().len() ==> call_requires(
                    f,
                    (Some(&(#[trigger] self.entries()[i]).1),),
                ),
            call_requires(f, (None::<&T>,)),
        ensures
            r ==> (forall|i: int|
                0 <= i < self.entries().len() ==> call_ensures(
                    f,
                    (Some(&(#[trigger] self.entries()[i]).1),),
                    true,
                )) && call_ensures(f, (None::<&T>,), true),
            !r ==> (exists|i: int|
                0 <= i < self.entries().len() && call_ensures(
                    f,
                    (Some(&(#[trigger] self.entries()[i]).1),),
                    false,
                )) || call_ensures(f, (None::<&T>,), false),
    {
        let n = self.pairs.len();
        let mut i: usize = 0;
        while i < n
            invariant
                n == self.entries().len(),
                forall|j: int|
                    0 <= j < n ==> call_requires(f, (Some(&(#[trigger] self.entries()[j]).1),)),
                call_requires(f, (None::<&T>,)),
                0 <= i <= n,
                forall|j: int|
                    0 <= j < i ==> call_ensures(
                        f,
                        (Some(&(#[trigger] self.entries()[j]).1),),
                        true,
                    ),
            decreases n - i,
        {
            if !f(Some(&self.pairs[i].1)) {
                return false;
            }
            i += 1;
        }
        f(None)
    }

    /// Whether `f` accepts every stored (coordinate, value) pair.
    pub fn indexed_all<F: Fn(Point, Option<&T>) -> bool>(&self, f: F) -> (r: bool)
        requires
            self.wf(),
            forall|i: int|
                0 <= i < self.entries().len() ==> call_requires(
                    f,
                    ((#[trigger] self.entries()[i]).0, Some(&self.entries()[i].1)),
                ),
        ensures
            r ==> forall|i: int|
                0 <= i < self.entries().len() ==> call_ensures(
                    f,
                    ((#[trigger] self.entries()[i]).0, Some(&self.entries()[i].1)),
                    true,
                ),
            !r ==> exists|i: int|
                0 <= i < self.entries().len() && call_ensures(
                    f,
                    ((#[trigger] self.entries()[i]).0, Some(&self.entries()[i].1)),
                    false,
                ),
    {
        let n = self.pairs.len();
        let mut i: usize = 0;
        while i < n
            invariant
                n == self.entries().len(),
                forall|j: int|
                    0 <= j < n ==> call_requires(
                        f,
                        ((#[trigger] self.entries()[j]).0, Some(&self.entries()[j].1)),
                    ),
                0 <= i <= n,
                forall|j: int|
                    0 <= j < i ==> call_ensures(
                        f,
                        ((#[trigger] self.entries()[j]).0, Some(&self.entries()[j].1)),
                        true,
                    ),
            decreases n - i,
        {
            let pr = &self.pairs[i];
            if !f(pr.0, Some(&pr.1)) {
                return false;
            }
            i += 1;
        }
        true
    }

    /// Whether `f` accepts some stored value, or failing that, the
    /// explicit "no value" input, which is probed once regardless of the
    /// grid's contents.
    pub fn any<F: Fn(Option<&T>) -> bool>(&self, f: F) -> (r: bool)
        requires
            self.wf(),
            forall|i: int|
                0 <= i < self.entries().len() ==> call_requires(
                    f,
                    (Some(&(#[trigger] self.entries()[i]).1),),
                ),
            call_requires(f, (None::<&T>,)),
        ensures
            r ==> (exists|i: int|
                0 <= i < self.entries().len() && call_ensures(
                    f,
                    (Some(&(#[trigger] self.entries()[i]).1),),
                    true,
                )) || call_ensures(f, (None::<&T>,), true),
            !r ==> (forall|i: int|
                0 <= i < self.entries().len() ==> call_ensures(
                    f,
                    (Some(&(#[trigger] self.entries()[i]).1),),
                    false,
                )) && call_ensures(f, (None::<&T>,), false),
    {
        let n = self.pairs.len();
        let mut i: usize = 0;
        while i < n
            invariant
                n == self.entries().len(),
                forall|j: int|
                    0 <= j < n ==> call_requires(f, (Some(&(#[trigger] self.entries()[j]).1),)),
                call_requires(f, (None::<&T>,)),
                0 <= i <= n,
                forall|j: int|
                    0 <= j < i ==> call_ensures(
                        f,
                        (Some(&(#[trigger] self.entries()[j]).1),),
                        false,
                    ),
            decreases n - i,
        {
            if f(Some(&self.pairs[i].1)) {
                return true;
            }
            i += 1;
        }
        f(None)
    }

    /// Whether `f` accepts some stored (coordinate, value) pair.
    pub fn indexed_any<F: Fn(Point, Option<&T>) -> bool>(&self, f: F) -> (r: bool)
        requires
            self.wf(),
            forall|i: int|
                0 <= i < self.entries().len() ==> call_requires(
                    f,
                    ((#[trigger] self.entries()[i]).0, Some(&self.entries()[i].1)),
                ),
        ensures
            r ==> exists|i: int|
                0 <= i < self.entries().len() && call_ensures(
                    f,
                    ((#[trigger] self.entries()[i]).0, Some(&self.entries()[i].1)),
                    true,
                ),
            !r ==> forall|i: int|
                0 <= i < self.entries().len() ==> call_ensures(
                    f,
                    ((#[trigger] self.entries()[i]).0, Some(&self.entries()[i].1)),
                    false,
                ),
    {
        let n = self.pairs.len();
        let mut i: usize = 0;
        while i < n
            invariant
                n == self.entries().len(),
                forall|j: int|
                    0 <= j < n ==> call_requires(
                        f,
                        ((#[trigger] self.entries()[j]).0, Some(&self.entries()[j].1)),
                    ),
                0 <= i <= n,
                forall|j: int|
                    0 <= j < i ==> call_ensures(
                        f,
                        ((#[trigger] self.entries()[j]).0, Some(&self.entries()[j].1)),
                        false,
                    ),
            decreases n - i,
        {
            let pr = &self.pairs[i];
            if f(pr.0, Some(&pr.1)) {
                return true;
            }
            i += 1;
        }
        false
    }
}


impl<T> Dynamic2DGrid<T> {
    /// The stored values that `f` accepts, each wrapped as "value
    /// present", in entry order. The decision sequence `bs` records one
    /// call outcome per entry; kept entries are exactly those decided
    /// `true`.
    pub fn filter<F: Fn(Option<&T>) -> bool>(&self, f: F) -> (r: Vec<Option<&T>>)
        requires
            self.wf(),
            forall|i: int|
                0 <= i < self.entries().len() ==> call_requires(
                    f,
                    (Some(&(#[trigger] self.entries()[i]).1),),
                ),
        ensures
            exists|bs: Seq<bool>|
                {
                    &&& bs.len() == self.entries().len()
                    &&& (forall|i: int|
                        0 <= i < bs.len() ==> call_ensures(
                            f,
                            (Some(&(#[trigger] self.entries()[i]).1),),
                            bs[i],
                        ))
                    &&& r@.len() == filter_by(self.entries(), bs).len()
                    &&& (forall|k: int|
                        0 <= k < r@.len() ==> ((#[trigger] r@[k]) matches Some(v) && *v
                            == filter_by(self.entries(), bs)[k].1))
                },
    {
        let ghost es = self.entries();
        let n = self.pairs.len();
        let mut r: Vec<Option<&T>> = Vec::new();
        let ghost mut bs: Seq<bool> = Seq::empty();
        let mut i: usize = 0;
        proof {
            assert(es.take(0) =~= Seq::empty());
        }
        while i < n
            invariant
                n == es.len(),
                es == self.entries(),
                forall|j: int|
                    0 <= j < n ==> call_requires(f, (Some(&(#[trigger] es[j]).1),)),
                0 <= i <= n,
                bs.len() == i,
                forall|j: int|
                    0 <= j < i ==> call_ensures(f, (Some(&(#[trigger] es[j]).1),), bs[j]),
                r@.len() == filter_by(es.take(i as int), bs).len(),
                forall|k: int|
                    0 <= k < r@.len() ==> ((#[trigger] r@[k]) matches Some(v) && *v == filter_by(
                        es.take(i as int),
                        bs,
                    )[k].1),
            decreases n - i,
        {
            let keep = f(Some(&self.pairs[i].1));
            proof {
                let bs1 = bs.push(keep);
                assert(es.take(i + 1).drop_last() =~= es.take(i as int));
                assert(bs1.drop_last() =~= bs);
                assert(es.take(i + 1).last() == es[i as int]);
                bs = bs1;
            }
            if keep {
                r.push(Some(&self.pairs[i].1));
            }
            i += 1;
        }
        proof {
            assert(es.take(n as int) =~= es);
        }
        r
    }

    /// The stored (coordinate, value) pairs that `f` accepts, in entry
    /// order.
    pub fn indexed_filter<F: Fn(Point, Option<&T>) -> bool>(&self, f: F) -> (r: Vec<
        (Point, Option<&T>),
    >)
        requires
            self.wf(),
            forall|i: int|
                0 <= i < self.entries().len() ==> call_requires(
                    f,
                    ((#[trigger] self.entries()[i]).0, Some(&self.entries()[i].1)),
                ),
        ensures
            exists|bs: Seq<bool>|
                {
                    &&& bs.len() == self.entries().len()
                    &&& (forall|i: int|
                        0 <= i < bs.len() ==> call_ensures(
                            f,
                            ((#[trigger] self.entries()[i]).0, Some(&self.entries()[i].1)),
                            bs[i],
                        ))
                    &&& r@.len() == filter_by(self.entries(), bs).len()
                    &&& (forall|k: int|
                        0 <= k < r@.len() ==> (#[trigger] r@[k]).0 == filter_by(
                            self.entries(),
                            bs,
                        )[k].0 && (r@[k].1 matches Some(v) && *v == filter_by(
                            self.entries(),
                            bs,
                        )[k].1))
                },
    {
        let ghost es = self.entries();
        let n = self.pairs.len();
        let mut r: Vec<(Point, Option<&T>)> = Vec::new();
        let ghost mut bs: Seq<bool> = Seq::empty();
        let mut i: usize = 0;
        proof {
            assert(es.take(0) =~= Seq::empty());
        }
        while i < n
            invariant
                n == es.len(),
                es == self.entries(),
                forall|j: int|
                    0 <= j < n ==> call_requires(
                        f,
                        ((#[trigger] es[j]).0, Some(&es[j].1)),
                    ),
                0 <= i <= n,
                bs.len() == i,
                forall|j: int|
                    0 <= j < i ==> call_ensures(
                        f,
                        ((#[trigger] es[j]).0, Some(&es[j].1)),
                        bs[j],
                    ),
                r@.len() == filter_by(es.take(i as int), bs).len(),
                forall|k: int|
                    0 <= k < r@.len() ==> (#[trigger] r@[k]).0 == filter_by(
                        es.take(i as int),
                        bs,
                    )[k].0 && (r@[k].1 matches Some(v) && *v == filter_by(
                        es.take(i as int),
                        bs,
                    )[k].1),
            decreases n - i,
        {
            let pr = &self.pairs[i];
            let keep = f(pr.0, Some(&pr.1));
            proof {
                let bs1 = bs.push(keep);
                assert(es.take(i + 1).drop_last() =~= es.take(i as int));
                assert(bs1.drop_last() =~= bs);
                assert(es.take(i + 1).last() == es[i as int]);
                bs = bs1;
            }
            if keep {
                r.push((pr.0, Some(&pr.1)));
            }
            i += 1;
        }
        proof {
            assert(es.take(n as int) =~= es);
        }
        r
    }

    /// Keeps only the entries whose value `f` accepts; the others are
    /// removed from the grid.
    pub fn retain<F: Fn(Option<&T>) -> bool>(&mut self, f: F)
        requires
            old(self).wf(),
            forall|i: int|
                0 <= i < old(self).entries().len() ==> call_requires(
                    f,
                    (Some(&(#[trigger] old(self).entries()[i]).1),),
                ),
        ensures
            final(self).wf(),
            exists|bs: Seq<bool>|
                {
                    &&& bs.len() == old(self).entries().len()
                    &&& (forall|i: int|
                        0 <= i < bs.len() ==> call_ensures(
                            f,
                            (Some(&(#[trigger] old(self).entries()[i]).1),),
                            bs[i],
                        ))
                    &&& final(self).entries() == filter_by(old(self).entries(), bs)
                },
    {
        let ghost es = self.entries();
        let mut tmp: Vec<(Point, T)> = Vec::new();
        core::mem::swap(&mut self.pairs, &mut tmp);
        let n = tmp.len();
        let mut kept: Vec<(Point, T)> = Vec::new();
        let ghost mut bs: Seq<bool> = Seq::empty();
        let mut i: usize = 0;
        proof {
            assert(es.take(0) =~= Seq::empty());
        }
        while i < n
            invariant
                n == es.len(),
                tmp@ == es.skip(i as int),
                forall|j: int|
                    0 <= j < n ==> call_requires(f, (Some(&(#[trigger] es[j]).1),)),
                0 <= i <= n,
                bs.len() == i,
                forall|j: int|
                    0 <= j < i ==> call_ensures(f, (Some(&(#[trigger] es[j]).1),), bs[j]),
                kept@ == filter_by(es.take(i as int), bs),
            decreases n - i,
        {
            proof {
                assert(es.skip(i as int)[0] == es[i as int]);
                assert(es.skip(i as int).remove(0) =~= es.skip(i + 1));
            }
            let pr = tmp.remove(0);
            let keep = f(Some(&pr.1));
            proof {
                let bs1 = bs.push(keep);
                assert(es.take(i + 1).drop_last() =~= es.take(i as int));
                assert(bs1.drop_last() =~= bs);
                assert(es.take(i + 1).last() == es[i as int]);
                bs = bs1;
            }
            if keep {
                kept.push(pr);
                proof {
                    assert(kept@ =~= filter_by(es.take(i + 1), bs));
                }
            } else {
                proof {
                    assert(kept@ =~= filter_by(es.take(i + 1), bs));
                }
            }
            i += 1;
        }
        self.pairs = kept;
        proof {
            assert(es.take(n as int) =~= es);
            lemma_distinct_filter_by(es, bs);
        }
    }

    /// Keeps only the entries whose (coordinate, value) pair `f` accepts.
    pub fn indexed_retain<F: Fn(Point, Option<&T>) -> bool>(&mut self, f: F)
        requires
            old(self).wf(),
            forall|i: int|
                0 <= i < old(self).entries().len() ==> call_requires(
                    f,
                    ((#[trigger] old(self).entries()[i]).0, Some(&old(self).entries()[i].1)),
                ),
        ensures
            final(self).wf(),
            exists|bs: Seq<bool>|
                {
                    &&& bs.len() == old(self).entries().len()
                    &&& (forall|i: int|
                        0 <= i < bs.len() ==> call_ensures(
                            f,
                            (
                                (#[trigger] old(self).entries()[i]).0,
                                Some(&old(self).entries()[i].1),
                            ),
                            bs[i],
                        ))
                    &&& final(self).entries() == filter_by(old(self).entries(), bs)
                },
    {
        let ghost es = self.entries();
        let mut tmp: Vec<(Point, T)> = Vec::new();
        core::mem::swap(&mut self.pairs, &mut tmp);
        let n = tmp.len();
        let mut kept: Vec<(Point, T)> = Vec::new();
        let ghost mut bs: Seq<bool> = Seq::empty();
        let mut i: usize = 0;
        proof {
            assert(es.take(0) =~= Seq::empty());
        }
        while i < n
            invariant
                n == es.len(),
                tmp@ == es.skip(i as int),
                forall|j: int|
                    0 <= j < n ==> call_requires(
                        f,
                        ((#[trigger] es[j]).0, Some(&es[j].1)),
                    ),
                0 <= i <= n,
                bs.len() == i,
                forall|j: int|
                    0 <= j < i ==> call_ensures(
                        f,
                        ((#[trigger] es[j]).0, Some(&es[j].1)),
                        bs[j],
                    ),
                kept@ == filter_by(es.take(i as int), bs),
            decreases n - i,
        {
            proof {
                assert(es.skip(i as int)[0] == es[i as int]);
                assert(es.skip(i as int).remove(0) =~= es.skip(i + 1));
            }
            let pr = tmp.remove(0);
            let keep = f(pr.0, Some(&pr.1));
            proof {
                let bs1 = bs.push(keep);
                assert(es.take(i + 1).drop_last() =~= es.take(i as int));
                assert(bs1.drop_last() =~= bs);
                assert(es.take(i + 1).last() == es[i as int]);
                bs = bs1;
            }
            if keep {
                kept.push(pr);
                proof {
                    assert(kept@ =~= filter_by(es.take(i + 1), bs));
                }
            } else {
                proof {
                    assert(kept@ =~= filter_by(es.take(i + 1), bs));
                }
            }
            i += 1;
        }
        self.pairs = kept;
        proof {
            assert(es.take(n as int) =~= es);
            lemma_distinct_filter_by(es, bs);
        }
    }

    /// One call outcome of `f` per stored value, in entry order.
    pub fn map<U, F: Fn(Option<&T>) -> Option<U>>(&self, f: F) -> (r: Vec<Option<U>>)
        requires
            self.wf(),
            forall|i: int|
                0 <= i < self.entries().len() ==> call_requires(
                    f,
                    (Some(&(#[trigger] self.entries()[i]).1),),
                ),
        ensures
            r@.len() == self.entries().len(),
            forall|i: int|
                0 <= i < r@.len() ==> call_ensures(
                    f,
                    (Some(&(#[trigger] self.entries()[i]).1),),
                    r@[i],
                ),
    {
        let n = self.pairs.len();
        let mut r: Vec<Option<U>> = Vec::new();
        let mut i: usize = 0;
        while i < n
            invariant
                n == self.entries().len(),
                forall|j: int|
                    0 <= j < n ==> call_requires(f, (Some(&(#[trigger] self.entries()[j]).1),)),
                0 <= i <= n,
                r@.len() == i,
                forall|j: int|
                    0 <= j < i ==> call_ensures(
                        f,
                        (Some(&(#[trigger] self.entries()[j]).1),),
                        r@[j],
                    ),
            decreases n - i,
        {
            r.push(f(Some(&self.pairs[i].1)));
            i += 1;
        }
        r
    }

    /// Each coordinate with one call outcome of `f` for its pair, in
    /// entry order.
    pub fn indexed_map<U, F: Fn(Point, Option<&T>) -> Option<U>>(&self, f: F) -> (r: Vec<
        (Point, Option<U>),
    >)
        requires
            self.wf(),
            forall|i: int|
                0 <= i < self.entries().len() ==> call_requires(
                    f,
                    ((#[trigger] self.entries()[i]).0, Some(&self.entries()[i].1)),
                ),
        ensures
            r@.len() == self.entries().len(),
            forall|i: int|
                0 <= i < r@.len() ==> (#[trigger] r@[i]).0 == self.entries()[i].0 && call_ensures(
                    f,
                    (self.entries()[i].0, Some(&self.entries()[i].1)),
                    r@[i].1,
                ),
    {
        let n = self.pairs.len();
        let mut r: Vec<(Point, Option<U>)> = Vec::new();
        let mut i: usize = 0;
        while i < n
            invariant
                n == self.entries().len(),
                forall|j: int|
                    0 <= j < n ==> call_requires(
                        f,
                        ((#[trigger] self.entries()[j]).0, Some(&self.entries()[j].1)),
                    ),
                0 <= i <= n,
                r@.len() == i,
                forall|j: int|
                    0 <= j < i ==> (#[trigger] r@[j]).0 == self.entries()[j].0 && call_ensures(
                        f,
                        (self.entries()[j].0, Some(&self.entries()[j].1)),
                        r@[j].1,
                    ),
            decreases n - i,
        {
            let pr = &self.pairs[i];
            r.push((pr.0, f(pr.0, Some(&pr.1))));
            i += 1;
        }
        r
    }

    /// Recomputes every stored value: each replacement is computed from
    /// the value the grid held *before* the update began, so an update
    /// rule never observes a sibling cell in its post-update state. A
    /// `None` outcome keeps the old value; keys are untouched.
    pub fn update<F: Fn(Option<&T>) -> Option<T>>(&mut self, f: F)
        requires
            old(self).wf(),
            forall|i: int|
                0 <= i < old(self).entries().len() ==> call_requires(
                    f,
                    (Some(&(#[trigger] old(self).entries()[i]).1),),
                ),
        ensures
            final(self).wf(),
            final(self).entries().len() == old(self).entries().len(),
            forall|i: int|
                0 <= i < old(self).entries().len() ==> (#[trigger] final(self).entries()[i]).0
                    == old(self).entries()[i].0,
            forall|i: int|
                0 <= i < old(self).entries().len() ==> call_ensures(
                    f,
                    (Some(&(#[trigger] old(self).entries()[i]).1),),
                    Some(final(self).entries()[i].1),
                ) || (call_ensures(f, (Some(&old(self).entries()[i].1),), None::<T>)
                    && final(self).entries()[i].1 == old(self).entries()[i].1),
            forall|k: Point| final(self)@.contains_key(k) <==> old(self)@.contains_key(k),
    {
        let ghost es = self.entries();
        let n = self.pairs.len();
        let mut i: usize = 0;
        while i < n
            invariant
                n == es.len(),
                es == old(self).entries(),
                self.pairs@.len() == n,
                forall|j: int|
                    0 <= j < n ==> call_requires(f, (Some(&(#[trigger] es[j]).1),)),
                0 <= i <= n,
                forall|j: int| i <= j < n ==> #[trigger] self.pairs@[j] == es[j],
                forall|j: int| 0 <= j < i ==> (#[trigger] self.pairs@[j]).0 == es[j].0,
                forall|j: int|
                    0 <= j < i ==> call_ensures(
                        f,
                        (Some(&(#[trigger] es[j]).1),),
                        Some(self.pairs@[j].1),
                    ) || (call_ensures(f, (Some(&es[j].1),), None::<T>) && self.pairs@[j].1
                        == es[j].1),
            decreases n - i,
        {
            let outcome = f(Some(&self.pairs[i].1));
            match outcome {
                Some(nv) => {
                    let pr = &mut self.pairs[i];
                    pr.1 = nv;
                },
                None => {},
            }
            i += 1;
        }
        proof {
            assert(keys_distinct(self.pairs@)) by {
                assert(forall|a: int, b: int|
                    0 <= a < b < self.pairs@.len() ==> (#[trigger] self.pairs@[a]).0 != (
                    #[trigger] self.pairs@[b]).0);
            }
            assert forall|k: Point|
                map_of(self.pairs@).contains_key(k) <==> map_of(es).contains_key(k) by {
                lemma_map_of_contains(self.pairs@, k);
                lemma_map_of_contains(es, k);
                if exists|j: int| 0 <= j < self.pairs@.len() && (#[trigger] self.pairs@[j]).0
                    == k {
                    let j = choose|j: int|
                        0 <= j < self.pairs@.len() && (#[trigger] self.pairs@[j]).0 == k;
                    assert(es[j].0 == k);
                }
                if exists|j: int| 0 <= j < es.len() && (#[trigger] es[j]).0 == k {
                    let j = choose|j: int| 0 <= j < es.len() && (#[trigger] es[j]).0 == k;
                    assert(self.pairs@[j].0 == k);
                }
            }
        }
    }

    /// Recomputes every stored value from its coordinate and the value
    /// held *before* the update began, as `update` does.
    pub fn indexed_update<F: Fn(Point, Option<&T>) -> Option<T>>(&mut self, f: F)
        requires
            old(self).wf(),
            forall|i: int|
                0 <= i < old(self).entries().len() ==> call_requires(
                    f,
                    ((#[trigger] old(self).entries()[i]).0, Some(&old(self).entries()[i].1)),
                ),
        ensures
            final(self).wf(),
            final(self).entries().len() == old(self).entries().len(),
            forall|i: int|
                0 <= i < old(self).entries().len() ==> (#[trigger] final(self).entries()[i]).0
                    == old(self).entries()[i].0,
            forall|i: int|
                0 <= i < old(self).entries().len() ==> call_ensures(
                    f,
                    ((#[trigger] old(self).entries()[i]).0, Some(&old(self).entries()[i].1)),
                    Some(final(self).entries()[i].1),
                ) || (call_ensures(
                    f,
                    (old(self).entries()[i].0, Some(&old(self).entries()[i].1)),
                    None::<T>,
                ) && final(self).entries()[i].1 == old(self).entries()[i].1),
            forall|k: Point| final(self)@.contains_key(k) <==> old(self)@.contains_key(k),
    {
        let ghost es = self.entries();
        let n = self.pairs.len();
        let mut i: usize = 0;
        while i < n
            invariant
                n == es.len(),
                es == old(self).entries(),
                self.pairs@.len() == n,
                forall|j: int|
                    0 <= j < n ==> call_requires(
                        f,
                        ((#[trigger] es[j]).0, Some(&es[j].1)),
                    ),
                0 <= i <= n,
                forall|j: int| i <= j < n ==> #[trigger] self.pairs@[j] == es[j],
                forall|j: int| 0 <= j < i ==> (#[trigger] self.pairs@[j]).0 == es[j].0,
                forall|j: int|
                    0 <= j < i ==> call_ensures(
                        f,
                        ((#[trigger] es[j]).0, Some(&es[j].1)),
                        Some(self.pairs@[j].1),
                    ) || (call_ensures(f, (es[j].0, Some(&es[j].1)), None::<T>)
                        && self.pairs@[j].1 == es[j].1),
            decreases n - i,
        {
            let pr0 = self.pairs[i].0;
            let outcome = f(pr0, Some(&self.pairs[i].1));
            match outcome {
                Some(nv) => {
                    let pr = &mut self.pairs[i];
                    pr.1 = nv;
                },
                None => {},
            }
            i += 1;
        }
        proof {
            assert(keys_distinct(self.pairs@)) by {
                assert(forall|a: int, b: int|
                    0 <= a < b < self.pairs@.len() ==> (#[trigger] self.pairs@[a]).0 != (
                    #[trigger] self.pairs@[b]).0);
            }
            assert forall|k: Point|
                map_of(self.pairs@).contains_key(k) <==> map_of(es).contains_key(k) by {
                lemma_map_of_contains(self.pairs@, k);
                lemma_map_of_contains(es, k);
                if exists|j: int| 0 <= j < self.pairs@.len() && (#[trigger] self.pairs@[j]).0
                    == k {
                    let j = choose|j: int|
                        0 <= j < self.pairs@.len() && (#[trigger] self.pairs@[j]).0 == k;
                    assert(es[j].0 == k);
                }
                if exists|j: int| 0 <= j < es.len() && (#[trigger] es[j]).0 == k {
                    let j = choose|j: int| 0 <= j < es.len() && (#[trigger] es[j]).0 == k;
                    assert(self.pairs@[j].0 == k);
                }
            }
        }
    }
}


impl<T> Dynamic2DGrid<T> {
    /// The values stored at the four cardinal neighbors of `p`, in the
    /// fixed candidate order; absent neighbors are omitted, never
    /// materialized.
    pub fn cardinal_neighbors(&self, p: Point) -> (r: Vec<&T>)
        requires
            self.wf(),
            isize::MIN < p.r < isize::MAX,
            isize::MIN < p.c < isize::MAX,
        ensures
            r@.len() == present_keys(cardinal_points(p), self@).len(),
            forall|k: int|
                0 <= k < r@.len() ==> self@.contains_key(
                    #[trigger] present_keys(cardinal_points(p), self@)[k],
                ) && *r@[k] == self@[present_keys(cardinal_points(p), self@)[k]],
    {
        let cands = p.cardinal_neighbors();
        let ghost cs = cardinal_points(p);
        let mut r: Vec<&T> = Vec::new();
        let mut j: usize = 0;
        proof {
            assert(cs.take(0) =~= Seq::empty());
        }
        while j < 4
            invariant
                self.wf(),
                cands@ == cs,
                cs.len() == 4,
                0 <= j <= 4,
                r@.len() == present_keys(cs.take(j as int), self@).len(),
                forall|k: int|
                    0 <= k < r@.len() ==> self@.contains_key(
                        #[trigger] present_keys(cs.take(j as int), self@)[k],
                    ) && *r@[k] == self@[present_keys(cs.take(j as int), self@)[k]],
            decreases 4 - j,
        {
            proof {
                assert(cs.take(j + 1).drop_last() =~= cs.take(j as int));
                assert(cs.take(j + 1).last() == cs[j as int]);
            }
            match self.get(&cands[j]) {
                Some(v) => {
                    r.push(v);
                },
                None => {},
            }
            j += 1;
        }
        proof {
            assert(cs.take(4) =~= cs);
        }
        r
    }

    /// The coordinates of the four cardinal neighbors of `p` that hold a
    /// value, in the fixed candidate order.
    pub fn indexed_cardinal_neighbors(&self, p: Point) -> (r: Vec<Point>)
        requires
            self.wf(),
            isize::MIN < p.r < isize::MAX,
            isize::MIN < p.c < isize::MAX,
        ensures
            r@ == present_keys(cardinal_points(p), self@),
    {
        let cands = p.cardinal_neighbors();
        let ghost cs = cardinal_points(p);
        let mut r: Vec<Point> = Vec::new();
        let mut j: usize = 0;
        proof {
            assert(cs.take(0) =~= Seq::empty());
        }
        while j < 4
            invariant
                self.wf(),
                cands@ == cs,
                cs.len() == 4,
                0 <= j <= 4,
                r@ == present_keys(cs.take(j as int), self@),
            decreases 4 - j,
        {
            proof {
                assert(cs.take(j + 1).drop_last() =~= cs.take(j as int));
                assert(cs.take(j + 1).last() == cs[j as int]);
            }
            if self.get(&cands[j]).is_some() {
                r.push(cands[j]);
                proof {
                    assert(r@ =~= present_keys(cs.take(j + 1), self@));
                }
            } else {
                proof {
                    assert(r@ =~= present_keys(cs.take(j + 1), self@));
                }
            }
            j += 1;
        }
        proof {
            assert(cs.take(4) =~= cs);
        }
        r
    }

    /// The values stored at the eight surrounding neighbors of `p`, in
    /// the fixed candidate order; absent neighbors are omitted.
    pub fn all_neighbors(&self, p: Point) -> (r: Vec<&T>)
        requires
            self.wf(),
            isize::MIN < p.r < isize::MAX,
            isize::MIN < p.c < isize::MAX,
        ensures
            r@.len() == present_keys(ring_points(p), self@).len(),
            forall|k: int|
                0 <= k < r@.len() ==> self@.contains_key(
                    #[trigger] present_keys(ring_points(p), self@)[k],
                ) && *r@[k] == self@[present_keys(ring_points(p), self@)[k]],
    {
        let cands = p.all_neighbors();
        let ghost cs = ring_points(p);
        let mut r: Vec<&T> = Vec::new();
        let mut j: usize = 0;
        proof {
            assert(cs.take(0) =~= Seq::empty());
        }
        while j < 8
            invariant
                self.wf(),
                cands@ == cs,
                cs.len() == 8,
                0 <= j <= 8,
                r@.len() == present_keys(cs.take(j as int), self@).len(),
                forall|k: int|
                    0 <= k < r@.len() ==> self@.contains_key(
                        #[trigger] present_keys(cs.take(j as int), self@)[k],
                    ) && *r@[k] == self@[present_keys(cs.take(j as int), self@)[k]],
            decreases 8 - j,
        {
            proof {
                assert(cs.take(j + 1).drop_last() =~= cs.take(j as int));
                assert(cs.take(j + 1).last() == cs[j as int]);
            }
            match self.get(&cands[j]) {
                Some(v) => {
                    r.push(v);
                },
                None => {},
            }
            j += 1;
        }
        proof {
            assert(cs.take(8) =~= cs);
        }
        r
    }

    /// The coordinates of the eight surrounding neighbors of `p` that
    /// hold a value, in the fixed candidate order.
    pub fn indexed_all_neighbors(&self, p: Point) -> (r: Vec<Point>)
        requires
            self.wf(),
            isize::MIN < p.r < isize::MAX,
            isize::MIN < p.c < isize::MAX,
        ensures
            r@ == present_keys(ring_points(p), self@),
    {
        let cands = p.all_neighbors();
        let ghost cs = ring_points(p);
        let mut r: Vec<Point> = Vec::new();
        let mut j: usize = 0;
        proof {
            assert(cs.take(0) =~= Seq::empty());
        }
        while j < 8
            invariant
                self.wf(),
                cands@ == cs,
                cs.len() == 8,
                0 <= j <= 8,
                r@ == present_keys(cs.take(j as int), self@),
            decreases 8 - j,
        {
            proof {
                assert(cs.take(j + 1).drop_last() =~= cs.take(j as int));
                assert(cs.take(j + 1).last() == cs[j as int]);
            }
            if self.get(&cands[j]).is_some() {
                r.push(cands[j]);
                proof {
                    assert(r@ =~= present_keys(cs.take(j + 1), self@));
                }
            } else {
                proof {
                    assert(r@ =~= present_keys(cs.take(j + 1), self@));
                }
            }
            j += 1;
        }
        proof {
            assert(cs.take(8) =~= cs);
        }
        r
    }
}


/// Whether the parsed text occupies cell (r, c): the line exists, is
/// long enough, and holds a non-space character there.
pub open spec fn text_has(ls: Seq<Seq<char>>, r: int, c: int) -> bool {
    0 <= r < ls.len() && 0 <= c < ls[r].len() && ls[r][c] != ' '
}

/// The rendered width of row `r` when only the first `w` columns after
/// `min_c` are considered: the span up to the last stored cell.
pub open spec fn dyn_row_width(m: Map<Point, char>, r: int, min_c: int, w: int) -> int
    decreases w,
{
    if w <= 0 {
        0
    } else if m.contains_key(Point { r: r as isize, c: (min_c + w - 1) as isize }) {
        w
    } else {
        dyn_row_width(m, r, min_c, w - 1)
    }
}

/// Row `r` rendered from column `min_c` for `width` cells: stored
/// characters as themselves, absent cells as spaces.
pub open spec fn dyn_row(m: Map<Point, char>, r: int, min_c: int, width: int) -> Seq<char> {
    Seq::new(
        width as nat,
        |k: int|
            if m.contains_key(Point { r: r as isize, c: (min_c + k) as isize }) {
                m[Point { r: r as isize, c: (min_c + k) as isize }]
            } else {
                ' '
            },
    )
}

/// Every row of the bounding box rendered, top to bottom, each trimmed
/// past its last stored cell.
pub open spec fn dyn_rows(
    m: Map<Point, char>,
    min_r: int,
    max_r: int,
    min_c: int,
    max_c: int,
) -> Seq<Seq<char>> {
    Seq::new(
        (max_r - min_r + 1) as nat,
        |i: int|
            dyn_row(m, min_r + i, min_c, dyn_row_width(m, min_r + i, min_c, max_c - min_c + 1)),
    )
}

impl Dynamic2DGrid<char> {
    /// A grid parsed from text: the character at line `r`, column `c`
    /// occupies coordinate (r, c) unless it is a space, which leaves
    /// the cell absent.
    pub fn from_text(t: &str) -> (g: Self)
        requires
            split_lines(t@).len() <= isize::MAX,
            max_line_len(split_lines(t@)) <= isize::MAX,
        ensures
            g.wf(),
            forall|p: Point|
                #[trigger] g@.contains_key(p) <==> text_has(split_lines(t@), p.r as int, p.c as int),
            forall|p: Point|
                g@.contains_key(p) ==> g@[p] == split_lines(t@)[p.r as int][p.c as int],
    {
        let ghost ls = split_lines(t@);
        let lines = split_text(t);
        let rows = lines.len();
        let mut g = Dynamic2DGrid::new();
        let mut r: usize = 0;
        proof {
            lemma_max_line_len(ls);
        }
        while r < rows
            invariant
                rows == lines@.len(),
                line_views(lines@) == ls,
                rows <= isize::MAX,
                max_line_len(ls) <= isize::MAX,
                g.wf(),
                0 <= r <= rows,
                forall|p: Point|
                    #[trigger] g@.contains_key(p) <==> (p.r < r && text_has(
                        ls,
                        p.r as int,
                        p.c as int,
                    )),
                forall|p: Point|
                    g@.contains_key(p) ==> g@[p] == ls[p.r as int][p.c as int],
            decreases rows - r,
        {
            let line = &lines[r];
            let m = line.len();
            proof {
                lemma_max_line_len(ls);
                assert(ls[r as int] == lines@[r as int]@);
            }
            let mut c: usize = 0;
            while c < m
                invariant
                    rows == lines@.len(),
                    line_views(lines@) == ls,
                    rows <= isize::MAX,
                    max_line_len(ls) <= isize::MAX,
                    line@ == ls[r as int],
                    m == line@.len(),
                    m <= max_line_len(ls),
                    r < rows,
                    g.wf(),
                    0 <= c <= m,
                    forall|p: Point|
                        #[trigger] g@.contains_key(p) <==> ((p.r < r || (p.r == r && p.c < c))
                            && text_has(ls, p.r as int, p.c as int)),
                    forall|p: Point|
                        g@.contains_key(p) ==> g@[p] == ls[p.r as int][p.c as int],
                decreases m - c,
            {
                let ch = line[c];
                if ch != ' ' {
                    g.set(Point { r: r as isize, c: c as isize }, ch);
                }
                c += 1;
            }
            r += 1;
        }
        g
    }

    /// The grid rendered as text: the bounding box's rows top to
    /// bottom, stored characters as themselves, absent cells as spaces,
    /// each row trimmed past its last stored cell, rows joined by line
    /// breaks; empty grids render as the empty string.
    pub fn render(&self) -> (out: String)
        requires
            self.wf(),
            self.entries().len() > 0 ==> key_max_r(self.entries()) - key_min_r(self.entries()) + 1
                <= isize::MAX,
            self.entries().len() > 0 ==> key_max_c(self.entries()) - key_min_c(self.entries()) + 1
                <= isize::MAX,
        ensures
            self.entries().len() == 0 ==> out@ == Seq::<char>::empty(),
            self.entries().len() > 0 ==> out@ == join_lines(
                dyn_rows(
                    self@,
                    key_min_r(self.entries()),
                    key_max_r(self.entries()),
                    key_min_c(self.entries()),
                    key_max_c(self.entries()),
                ),
            ),
    {
        match self.bounds() {
            None => {
                let out = String::new();
                proof {
                    assert(out@ =~= Seq::<char>::empty());
                }
                out
            },
            Some((lo, hi)) => {
                proof {
                    lemma_key_bounds(self.entries());
                }
                let ghost rr = dyn_rows(
                    self@,
                    lo.r as int,
                    hi.r as int,
                    lo.c as int,
                    hi.c as int,
                );
                let height = hi.r - lo.r + 1;
                let span = hi.c - lo.c + 1;
                let mut rows: Vec<Vec<char>> = Vec::new();
                let mut i: isize = 0;
                proof {
                    assert(line_views(rows@) =~= Seq::<Seq<char>>::empty());
                    assert(rr.take(0) =~= Seq::<Seq<char>>::empty());
                }
                while i < height
                    invariant
                        self.wf(),
                        self.entries().len() > 0,
                        lo.r as int == key_min_r(self.entries()),
                        hi.r as int == key_max_r(self.entries()),
                        lo.c as int == key_min_c(self.entries()),
                        hi.c as int == key_max_c(self.entries()),
                        height == hi.r - lo.r + 1,
                        span == hi.c - lo.c + 1,
                        rr == dyn_rows(self@, lo.r as int, hi.r as int, lo.c as int, hi.c as int),
                        rr.len() == height,
                        0 <= i <= height,
                        line_views(rows@) == rr.take(i as int),
                    decreases height - i,
                {
                    let r = lo.r + i;
                    let mut w: isize = span;
                    while w > 0 && self.get(&Point::new(r, lo.c + (w - 1))).is_none()
                        invariant
                            self.wf(),
                            r == lo.r + i,
                            span == hi.c - lo.c + 1,
                            0 <= w <= span,
                            dyn_row_width(self@, r as int, lo.c as int, span as int)
                                == dyn_row_width(self@, r as int, lo.c as int, w as int),
                        decreases w,
                    {
                        w -= 1;
                    }
                    proof {
                        assert(dyn_row_width(self@, r as int, lo.c as int, span as int) == w);
                    }
                    let mut row: Vec<char> = Vec::new();
                    let mut k: isize = 0;
                    while k < w
                        invariant
                            self.wf(),
                            r == lo.r + i,
                            0 <= w <= span,
                            span == hi.c - lo.c + 1,
                            0 <= k <= w,
                            row@.len() == k,
                            forall|k2: int|
                                0 <= k2 < k ==> #[trigger] row@[k2] == dyn_row(
                                    self@,
                                    r as int,
                                    lo.c as int,
                                    w as int,
                                )[k2],
                        decreases w - k,
                    {
                        match self.get(&Point { r, c: lo.c + k }) {
                            Some(v) => {
                                row.push(*v);
                            },
                            None => {
                                row.push(' ');
                            },
                        }
                        k += 1;
                    }
                    let ghost rows_pre = rows@;
                    rows.push(row);
                    proof {
                        assert(row@ =~= dyn_row(
                            self@,
                            r as int,
                            lo.c as int,
                            dyn_row_width(self@, r as int, lo.c as int, span as int),
                        ));
                        assert(line_views(rows@) =~= line_views(rows_pre).push(row@));
                        assert(rr.take(i + 1).drop_last() =~= rr.take(i as int));
                        assert(rr.take(i + 1).last() == rr[i as int]);
                        assert(rr[i as int] == dyn_row(
                            self@,
                            lo.r + i,
                            lo.c as int,
                            dyn_row_width(self@, lo.r + i, lo.c as int, hi.c - lo.c + 1),
                        ));
                        assert(line_views(rows@) =~= rr.take(i + 1));
                    }
                    i += 1;
                }
                proof {
                    assert(rr.take(height as int) =~= rr);
                }
                join_text(&rows)
            },
        }
    }
}

impl<T> Default for Dynamic2DGrid<T> {
    /// The empty grid.
    fn default() -> (g: Self)
        ensures
            g.wf(),
            g@ == Map::<Point, T>::empty(),
            g.entries().len() == 0,
    {
        Dynamic2DGrid::new()
    }
}

} // verus!

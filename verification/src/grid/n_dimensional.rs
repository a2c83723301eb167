//! A sparse n-dimensional grid: a coordinate-to-value mapping keyed by
//! `NDPoint`s. The map view is keyed by the coordinate sequences
//! themselves, so two points with equal coordinates address one cell.

use vstd::prelude::*;

verus! {

use crate::grid::model::{
    filter_by, keys_distinct, lemma_distinct_filter_by, lemma_distinct_push,
    lemma_distinct_update, lemma_map_of_contains, lemma_map_of_index, lemma_map_of_push,
    lemma_map_of_update, map_of, present_keys,
};
use crate::point::n_dimensional::{nbr_index, offset_ints, pow3, to_ints, trits, NDPoint};

/// A delta-offset coordinate vector narrowed back to `isize` components.
pub open spec fn seq_isize(s: Seq<int>) -> Seq<isize>
    recommends
        forall|i: int| 0 <= i < s.len() ==> isize::MIN <= #[trigger] s[i] <= isize::MAX,
{
    Seq::new(s.len(), |i: int| s[i] as isize)
}

/// The coordinate sequences of every neighbor of `c`, in enumeration
/// order.
pub open spec fn nd_ring(c: Seq<isize>) -> Seq<Seq<isize>> {
    Seq::new(
        (pow3(c.len()) - 1) as nat,
        |k: int| seq_isize(offset_ints(c, trits(nbr_index(k, c.len()), c.len()))),
    )
}

/// An entry sequence with each key read as its coordinate sequence.
pub open spec fn view_entries<T>(s: Seq<(NDPoint, T)>) -> Seq<(Seq<isize>, T)> {
    Seq::new(s.len(), |i: int| (s[i].0.coords@, s[i].1))
}

/// Keeping a subsequence commutes with reading keys as coordinate
/// sequences.
pub proof fn lemma_view_entries_filter_by<T>(s: Seq<(NDPoint, T)>, bs: Seq<bool>)
    requires
        bs.len() == s.len(),
    ensures
        view_entries(filter_by(s, bs)) == filter_by(view_entries(s), bs),
    decreases s.len(),
{
    if s.len() == 0 {
        assert(view_entries(filter_by(s, bs)) =~= filter_by(view_entries(s), bs));
    } else {
        lemma_view_entries_filter_by(s.drop_last(), bs.drop_last());
        assert(view_entries(s).drop_last() =~= view_entries(s.drop_last()));
        assert(view_entries(filter_by(s, bs)) =~= filter_by(view_entries(s), bs));
    }
}

/// A sparse grid of values addressed by n-dimensional points. The
/// backing entry sequence holds each stored key exactly once; its map
/// reading (`view`), keyed by coordinate sequences, is the grid's
/// meaning.
pub struct NDGrid<T> {
    pairs: Vec<(NDPoint, T)>,
}

impl<T> View for NDGrid<T> {
    type V = Map<Seq<isize>, T>;

    open spec fn view(&self) -> Map<Seq<isize>, T> {
        map_of(self.entries())
    }
}

impl<T> NDGrid<T> {
    /// The stored entries as they are held, in iteration order.
    pub closed spec fn raw_entries(&self) -> Seq<(NDPoint, T)> {
        self.pairs@
    }

    /// The stored entries, with each key read as its coordinate
    /// sequence, in iteration order.
    pub open spec fn entries(&self) -> Seq<(Seq<isize>, T)> {
        view_entries(self.raw_entries())
    }

    /// Well-formedness: no coordinate sequence occurs twice.
    pub closed spec fn wf(&self) -> bool {
        keys_distinct(self.entries())
    }

    /// An empty sparse grid.
    pub fn new() -> (g: Self)
        ensures
            g.wf(),
            g@ == Map::<Seq<isize>, T>::empty(),
            g.entries().len() == 0,
    {
        proof {
            assert(view_entries(Seq::<(NDPoint, T)>::empty()) =~= Seq::<(Seq<isize>, T)>::empty());
        }
        NDGrid { pairs: Vec::new() }
    }

    /// A grid holding the given entries, inserted in order; a later pair
    /// with the same coordinates overwrites an earlier one.
    pub fn from_pairs(v: Vec<(NDPoint, T)>) -> (g: Self)
        ensures
            g.wf(),
            g@ == map_of(view_entries(v@)),
    {
        let ghost vs = view_entries(v@);
        let mut g = NDGrid::new();
        let n = v.len();
        let mut v = v;
        let mut i: usize = 0;
        proof {
            assert(vs.take(0) =~= Seq::empty());
        }
        while i < n
            invariant
                n == vs.len(),
                view_entries(v@) == vs.skip(i as int),
                0 <= i <= n,
                g.wf(),
                g@ == map_of(vs.take(i as int)),
            decreases n - i,
        {
            proof {
                assert(view_entries(v@).len() == v@.len());
                assert(v@.len() == n - i);
                assert(view_entries(v@)[0] == vs.skip(i as int)[0]);
                assert forall|k: int|
                    0 <= k < v@.len() - 1 implies #[trigger] view_entries(v@.remove(0))[k]
                    == vs.skip(i + 1)[k] by {
                    assert(v@.remove(0)[k] == v@[k + 1]);
                    assert(vs.skip(i + 1)[k] == vs.skip(i as int)[k + 1]);
                    assert(vs.skip(i as int)[k + 1] == view_entries(v@)[k + 1]);
                    assert(view_entries(v@)[k + 1] == (v@[k + 1].0.coords@, v@[k + 1].1));
                }
                assert(view_entries(v@.remove(0)) =~= vs.skip(i + 1));
                assert(vs.take(i + 1).drop_last() =~= vs.take(i as int));
                assert(vs.take(i + 1).last() == vs[i as int]);
            }
            let (p, val) = v.remove(0);
            g.set(p, val);
            i += 1;
        }
        proof {
            assert(vs.take(n as int) =~= vs);
        }
        g
    }

    /// Looks a coordinate up, returning the stored value if the cell is
    /// present.
    pub fn get(&self, p: &NDPoint) -> (r: Option<&T>)
        requires
            self.wf(),
        ensures
            match r {
                Some(v) => self@.contains_key(p.coords@) && *v == self@[p.coords@],
                None => !self@.contains_key(p.coords@),
            },
    {
        let ghost s = self.entries();
        let n = self.pairs.len();
        let mut i: usize = 0;
        while i < n
            invariant
                n == s.len(),
                s == self.entries(),
                keys_distinct(s),
                0 <= i <= n,
                forall|j: int| 0 <= j < i ==> (#[trigger] s[j]).0 != p.coords@,
            decreases n - i,
        {
            if self.pairs[i].0 == *p {
                proof {
                    lemma_map_of_index(s, i as int);
                }
                return Some(&self.pairs[i].1);
            }
            i += 1;
        }
        proof {
            lemma_map_of_contains(s, p.coords@);
        }
        None
    }

    /// Looks a coordinate up for mutation. Writing through the returned
    /// reference updates the stored value at `p` and nothing else.
    pub fn get_mut(&mut self, p: &NDPoint) -> (r: Option<&mut T>)
        requires
            old(self).wf(),
        ensures
            final(self).wf(),
            match r {
                Some(m) => {
                    &&& old(self)@.contains_key(p.coords@)
                    &&& *m == old(self)@[p.coords@]
                    &&& final(self)@ == old(self)@.insert(p.coords@, *final(m))
                    &&& final(self).entries().len() == old(self).entries().len()
                },
                None => {
                    &&& !old(self)@.contains_key(p.coords@)
                    &&& *final(self) == *old(self)
                },
            },
    {
        let ghost s = self.entries();
        let n = self.pairs.len();
        let mut i: usize = 0;
        while i < n
            invariant
                n == s.len(),
                *self == *old(self),
                s == self.entries(),
                keys_distinct(s),
                0 <= i <= n,
                forall|j: int| 0 <= j < i ==> (#[trigger] s[j]).0 != p.coords@,
            decreases n - i,
        {
            if self.pairs[i].0 == *p {
                proof {
                    lemma_map_of_index(s, i as int);
                    assert forall|v: T| #[trigger]
                        map_of(s.update(i as int, (p.coords@, v))) == map_of(s).insert(
                        p.coords@,
                        v,
                    ) by {
                        lemma_map_of_update(s, i as int, p.coords@, v);
                    }
                    assert forall|v: T|
                        keys_distinct(#[trigger] s.update(i as int, (p.coords@, v))) by {
                        lemma_distinct_update(s, i as int, p.coords@, v);
                    }
                    assert forall|v: T, q: NDPoint|
                        q.coords@ == p.coords@ implies view_entries(
                        #[trigger] self.pairs@.update(i as int, (q, v)),
                    ) == s.update(i as int, (p.coords@, v)) by {
                        assert(view_entries(self.pairs@.update(i as int, (q, v))) =~= s.update(
                            i as int,
                            (p.coords@, v),
                        ));
                    }
                }
                let pr = &mut self.pairs[i];
                return Some(&mut pr.1);
            }
            i += 1;
        }
        proof {
            lemma_map_of_contains(s, p.coords@);
        }
        None
    }

    /// Stores `v` at `p`, returning the value it displaced, if any.
    pub fn set(&mut self, p: NDPoint, v: T) -> (r: Option<T>)
        requires
            old(self).wf(),
        ensures
            final(self).wf(),
            final(self)@ == old(self)@.insert(p.coords@, v),
            match r {
                Some(prior) => {
                    &&& old(self)@.contains_key(p.coords@)
                    &&& prior == old(self)@[p.coords@]
                    &&& final(self).entries().len() == old(self).entries().len()
                },
                None => {
                    &&& !old(self)@.contains_key(p.coords@)
                    &&& final(self).entries() == old(self).entries().push((p.coords@, v))
                },
            },
    {
        let ghost s = self.entries();
        let n = self.pairs.len();
        let mut i: usize = 0;
        while i < n
            invariant
                n == s.len(),
                *self == *old(self),
                s == self.entries(),
                keys_distinct(s),
                0 <= i <= n,
                forall|j: int| 0 <= j < i ==> (#[trigger] s[j]).0 != p.coords@,
            decreases n - i,
        {
            if self.pairs[i].0 == p {
                proof {
                    lemma_map_of_index(s, i as int);
                }
                self.pairs.push((p, v));
                let pr = self.pairs.swap_remove(i);
                proof {
                    assert(self.entries() =~= s.update(i as int, (pr.0.coords@, v)));
                    lemma_map_of_update(s, i as int, pr.0.coords@, v);
                    lemma_distinct_update(s, i as int, pr.0.coords@, v);
                }
                return Some(pr.1);
            }
            i += 1;
        }
        proof {
            lemma_map_of_contains(s, p.coords@);
            lemma_map_of_push(s, p.coords@, v);
            lemma_distinct_push(s, p.coords@, v);
            assert(view_entries(self.pairs@.push((p, v))) =~= s.push((p.coords@, v)));
        }
        self.pairs.push((p, v));
        None
    }

    /// Whether the grid holds no entries.
    pub fn is_empty(&self) -> (r: bool)
        requires
            self.wf(),
        ensures
            r == (self.entries().len() == 0),
            r == (self@ == Map::<Seq<isize>, T>::empty()),
    {
        proof {
            if self.entries().len() > 0 {
                lemma_map_of_index(self.entries(), 0);
            }
            if self.entries().len() == 0 {
                assert(self@ =~= Map::<Seq<isize>, T>::empty());
            }
        }
        self.pairs.len() == 0
    }

    /// The stored values, in entry order.
    pub fn iter(&self) -> (r: Vec<&T>)
        requires
            self.wf(),
        ensures
            r@.len() == self.entries().len(),
            forall|i: int| 0 <= i < r@.len() ==> *r@[i] == (#[trigger] self.entries()[i]).1,
    {
        let n = self.pairs.len();
        let mut r: Vec<&T> = Vec::new();
        let mut i: usize = 0;
        while i < n
            invariant
                n == self.entries().len(),
                0 <= i <= n,
                r@.len() == i,
                forall|j: int| 0 <= j < i ==> *r@[j] == (#[trigger] self.entries()[j]).1,
            decreases n - i,
        {
            r.push(&self.pairs[i].1);
            i += 1;
        }
        r
    }

    /// The stored (coordinate, value) pairs, by reference, in entry
    /// order.
    pub fn indexed_iter(&self) -> (r: Vec<(&NDPoint, &T)>)
        requires
            self.wf(),
        ensures
            r@.len() == self.entries().len(),
            forall|i: int|
                0 <= i < r@.len() ==> (#[trigger] r@[i]).0.coords@ == self.entries()[i].0
                    && *r@[i].1 == self.entries()[i].1,
    {
        let n = self.pairs.len();
        let mut r: Vec<(&NDPoint, &T)> = Vec::new();
        let mut i: usize = 0;
        while i < n
            invariant
                n == self.entries().len(),
                0 <= i <= n,
                r@.len() == i,
                forall|j: int|
                    0 <= j < i ==> (#[trigger] r@[j]).0.coords@ == self.entries()[j].0 && *r@[j].1
                        == self.entries()[j].1,
            decreases n - i,
        {
            let pr = &self.pairs[i];
            r.push((&pr.0, &pr.1));
            i += 1;
        }
        r
    }

    /// Consumes the grid, yielding its (coordinate, value) entries.
    pub fn into_indexed_iter(self) -> (r: Vec<(NDPoint, T)>)
        ensures
            r@.len() == self.entries().len(),
            forall|i: int|
                0 <= i < r@.len() ==> (#[trigger] r@[i]).0.coords@ == self.entries()[i].0
                    && r@[i].1 == self.entries()[i].1,
    {
        self.pairs
    }

    /// Whether `f` accepts every stored value, and additionally the
    /// explicit "no value" input, which is probed once regardless of the
    /// grid's contents.
    pub fn all<F: Fn(Option<&T>) -> bool>(&self, f: F) -> (r: bool)
        requires
            self.wf(),
            forall|i: int|
                0 <= i < self.entries().len() ==> call_requires(
                    f,
                    (Some(&(#[trigger] self.entries()[i]).1),),
                ),
            call_requires(f, (None::<&T>,)),
        ensures
            r ==> (forall|i: int|
                0 <= i < self.entries().len() ==> call_ensures(
                    f,
                    (Some(&(#[trigger] self.entries()[i]).1),),
                    true,
                )) && call_ensures(f, (None::<&T>,), true),
            !r ==> (exists|i: int|
                0 <= i < self.entries().len() && call_ensures(
                    f,
                    (Some(&(#[trigger] self.entries()[i]).1),),
                    false,
                )) || call_ensures(f, (None::<&T>,), false),
    {
        let n = self.pairs.len();
        let mut i: usize = 0;
        while i < n
            invariant
                n == self.entries().len(),
                forall|j: int|
                    0 <= j < n ==> call_requires(f, (Some(&(#[trigger] self.entries()[j]).1),)),
                call_requires(f, (None::<&T>,)),
                0 <= i <= n,
                forall|j: int|
                    0 <= j < i ==> call_ensures(
                        f,
                        (Some(&(#[trigger] self.entries()[j]).1),),
                        true,
                    ),
            decreases n - i,
        {
            proof {
                assert(self.entries()[i as int].1 == self.pairs@[i as int].1);
            }
            if !f(Some(&self.pairs[i].1)) {
                return false;
            }
            i += 1;
        }
        f(None)
    }

    /// Whether `f` accepts every stored (coordinate, value) pair.
    pub fn indexed_all<F: Fn(&NDPoint, Option<&T>) -> bool>(&self, f: F) -> (r: bool)
        requires
            self.wf(),
            forall|i: int|
                0 <= i < self.raw_entries().len() ==> call_requires(
                    f,
                    (&(#[trigger] self.raw_entries()[i]).0, Some(&self.raw_entries()[i].1)),
                ),
        ensures
            r ==> forall|i: int|
                0 <= i < self.raw_entries().len() ==> call_ensures(
                    f,
                    (&(#[trigger] self.raw_entries()[i]).0, Some(&self.raw_entries()[i].1)),
                    true,
                ),
            !r ==> exists|i: int|
                0 <= i < self.raw_entries().len() && call_ensures(
                    f,
                    (&(#[trigger] self.raw_entries()[i]).0, Some(&self.raw_entries()[i].1)),
                    false,
                ),
    {
        let n = self.pairs.len();
        let mut i: usize = 0;
        while i < n
            invariant
                n == self.raw_entries().len(),
                forall|j: int|
                    0 <= j < n ==> call_requires(
                        f,
                        (&(#[trigger] self.raw_entries()[j]).0, Some(&self.raw_entries()[j].1)),
                    ),
                0 <= i <= n,
                forall|j: int|
                    0 <= j < i ==> call_ensures(
                        f,
                        (&(#[trigger] self.raw_entries()[j]).0, Some(&self.raw_entries()[j].1)),
                        true,
                    ),
            decreases n - i,
        {
            let pr = &self.pairs[i];
            if !f(&pr.0, Some(&pr.1)) {
                return false;
            }
            i += 1;
        }
        true
    }


    /// Whether `f` accepts some stored value, or failing that, the
    /// explicit "no value" input, which is probed once regardless of the
    /// grid's contents.
    pub fn any<F: Fn(Option<&T>) -> bool>(&self, f: F) -> (r: bool)
        requires
            self.wf(),
            forall|i: int|
                0 <= i < self.entries().len() ==> call_requires(
                    f,
                    (Some(&(#[trigger] self.entries()[i]).1),),
                ),
            call_requires(f, (None::<&T>,)),
        ensures
            r ==> (exists|i: int|
                0 <= i < self.entries().len() && call_ensures(
                    f,
                    (Some(&(#[trigger] self.entries()[i]).1),),
                    true,
                )) || call_ensures(f, (None::<&T>,), true),
            !r ==> (forall|i: int|
                0 <= i < self.entries().len() ==> call_ensures(
                    f,
                    (Some(&(#[trigger] self.entries()[i]).1),),
                    false,
                )) && call_ensures(f, (None::<&T>,), false),
    {
        let n = self.pairs.len();
        let mut i: usize = 0;
        while i < n
            invariant
                n == self.entries().len(),
                forall|j: int|
                    0 <= j < n ==> call_requires(f, (Some(&(#[trigger] self.entries()[j]).1),)),
                call_requires(f, (None::<&T>,)),
                0 <= i <= n,
                forall|j: int|
                    0 <= j < i ==> call_ensures(
                        f,
                        (Some(&(#[trigger] self.entries()[j]).1),),
                        false,
                    ),
            decreases n - i,
        {
            proof {
                assert(self.entries()[i as int].1 == self.pairs@[i as int].1);
            }
            if f(Some(&self.pairs[i].1)) {
                return true;
            }
            i += 1;
        }
        f(None)
    }

    /// Whether `f` accepts some stored (coordinate, value) pair.
    pub fn indexed_any<F: Fn(&NDPoint, Option<&T>) -> bool>(&self, f: F) -> (r: bool)
        requires
            self.wf(),
            forall|i: int|
                0 <= i < self.raw_entries().len() ==> call_requires(
                    f,
                    (&(#[trigger] self.raw_entries()[i]).0, Some(&self.raw_entries()[i].1)),
                ),
        ensures
            r ==> exists|i: int|
                0 <= i < self.raw_entries().len() && call_ensures(
                    f,
                    (&(#[trigger] self.raw_entries()[i]).0, Some(&self.raw_entries()[i].1)),
                    true,
                ),
            !r ==> forall|i: int|
                0 <= i < self.raw_entries().len() ==> call_ensures(
                    f,
                    (&(#[trigger] self.raw_entries()[i]).0, Some(&self.raw_entries()[i].1)),
                    false,
                ),
    {
        let n = self.pairs.len();
        let mut i: usize = 0;
        while i < n
            invariant
                n == self.raw_entries().len(),
                forall|j: int|
                    0 <= j < n ==> call_requires(
                        f,
                        (&(#[trigger] self.raw_entries()[j]).0, Some(&self.raw_entries()[j].1)),
                    ),
                0 <= i <= n,
                forall|j: int|
                    0 <= j < i ==> call_ensures(
                        f,
                        (&(#[trigger] self.raw_entries()[j]).0, Some(&self.raw_entries()[j].1)),
                        false,
                    ),
            decreases n - i,
        {
            let pr = &self.pairs[i];
            if f(&pr.0, Some(&pr.1)) {
                return true;
            }
            i += 1;
        }
        false
    }


    /// Keeps only the entries whose value `f` accepts; the others are
    /// removed from the grid.
    pub fn retain<F: Fn(Option<&T>) -> bool>(&mut self, f: F)
        requires
            old(self).wf(),
            forall|i: int|
                0 <= i < old(self).entries().len() ==> call_requires(
                    f,
                    (Some(&(#[trigger] old(self).entries()[i]).1),),
                ),
        ensures
            final(self).wf(),
            exists|bs: Seq<bool>|
                {
                    &&& bs.len() == old(self).entries().len()
                    &&& (forall|i: int|
                        0 <= i < bs.len() ==> call_ensures(
                            f,
                            (Some(&(#[trigger] old(self).entries()[i]).1),),
                            bs[i],
                        ))
                    &&& final(self).entries() == filter_by(old(self).entries(), bs)
                },
    {
        let ghost es = self.entries();
        let mut tmp: Vec<(NDPoint, T)> = Vec::new();
        core::mem::swap(&mut self.pairs, &mut tmp);
        let n = tmp.len();
        let mut kept: Vec<(NDPoint, T)> = Vec::new();
        let ghost mut bs: Seq<bool> = Seq::empty();
        let mut i: usize = 0;
        proof {
            assert(es.take(0) =~= Seq::empty());
        }
        while i < n
            invariant
                n == es.len(),
                view_entries(tmp@) == es.skip(i as int),
                forall|j: int| 0 <= j < n ==> call_requires(f, (Some(&(#[trigger] es[j]).1),)),
                0 <= i <= n,
                bs.len() == i,
                forall|j: int|
                    0 <= j < i ==> call_ensures(f, (Some(&(#[trigger] es[j]).1),), bs[j]),
                view_entries(kept@) == filter_by(es.take(i as int), bs),
            decreases n - i,
        {
            proof {
                assert(view_entries(tmp@).len() == tmp@.len());
                assert(tmp@.len() == n - i);
                assert(view_entries(tmp@)[0] == es.skip(i as int)[0]);
                assert forall|k: int|
                    0 <= k < tmp@.len() - 1 implies #[trigger] view_entries(tmp@.remove(0))[k]
                    == es.skip(i + 1)[k] by {
                    assert(tmp@.remove(0)[k] == tmp@[k + 1]);
                    assert(es.skip(i + 1)[k] == es.skip(i as int)[k + 1]);
                    assert(es.skip(i as int)[k + 1] == view_entries(tmp@)[k + 1]);
                    assert(view_entries(tmp@)[k + 1] == (tmp@[k + 1].0.coords@, tmp@[k + 1].1));
                }
                assert(view_entries(tmp@.remove(0)) =~= es.skip(i + 1));
            }
            let pr = tmp.remove(0);
            let keep = f(Some(&pr.1));
            proof {
                let bs1 = bs.push(keep);
                assert(es.take(i + 1).drop_last() =~= es.take(i as int));
                assert(bs1.drop_last() =~= bs);
                assert(es.take(i + 1).last() == es[i as int]);
                bs = bs1;
            }
            if keep {
                kept.push(pr);
                proof {
                    assert(view_entries(kept@) =~= filter_by(es.take(i + 1), bs));
                }
            } else {
                proof {
                    assert(view_entries(kept@) =~= filter_by(es.take(i + 1), bs));
                }
            }
            i += 1;
        }
        self.pairs = kept;
        proof {
            assert(es.take(n as int) =~= es);
            lemma_distinct_filter_by(es, bs);
        }
    }

    /// Keeps only the entries whose (coordinate, value) pair `f`
    /// accepts.
    pub fn indexed_retain<F: Fn(&NDPoint, Option<&T>) -> bool>(&mut self, f: F)
        requires
            old(self).wf(),
            forall|i: int|
                0 <= i < old(self).raw_entries().len() ==> call_requires(
                    f,
                    (
                        &(#[trigger] old(self).raw_entries()[i]).0,
                        Some(&old(self).raw_entries()[i].1),
                    ),
                ),
        ensures
            final(self).wf(),
            exists|bs: Seq<bool>|
                {
                    &&& bs.len() == old(self).raw_entries().len()
                    &&& (forall|i: int|
                        0 <= i < bs.len() ==> call_ensures(
                            f,
                            (
                                &(#[trigger] old(self).raw_entries()[i]).0,
                                Some(&old(self).raw_entries()[i].1),
                            ),
                            bs[i],
                        ))
                    &&& final(self).raw_entries() == filter_by(old(self).raw_entries(), bs)
                },
    {
        let ghost es = self.raw_entries();
        let mut tmp: Vec<(NDPoint, T)> = Vec::new();
        core::mem::swap(&mut self.pairs, &mut tmp);
        let n = tmp.len();
        let mut kept: Vec<(NDPoint, T)> = Vec::new();
        let ghost mut bs: Seq<bool> = Seq::empty();
        let mut i: usize = 0;
        proof {
            assert(es.take(0) =~= Seq::empty());
        }
        while i < n
            invariant
                n == es.len(),
                tmp@ == es.skip(i as int),
                forall|j: int|
                    0 <= j < n ==> call_requires(
                        f,
                        (&(#[trigger] es[j]).0, Some(&es[j].1)),
                    ),
                0 <= i <= n,
                bs.len() == i,
                forall|j: int|
                    0 <= j < i ==> call_ensures(
                        f,
                        (&(#[trigger] es[j]).0, Some(&es[j].1)),
                        bs[j],
                    ),
                kept@ == filter_by(es.take(i as int), bs),
            decreases n - i,
        {
            proof {
                assert(es.skip(i as int)[0] == es[i as int]);
                assert(es.skip(i as int).remove(0) =~= es.skip(i + 1));
            }
            let pr = tmp.remove(0);
            let keep = f(&pr.0, Some(&pr.1));
            proof {
                let bs1 = bs.push(keep);
                assert(es.take(i + 1).drop_last() =~= es.take(i as int));
                assert(bs1.drop_last() =~= bs);
                assert(es.take(i + 1).last() == es[i as int]);
                bs = bs1;
            }
            if keep {
                kept.push(pr);
                proof {
                    assert(kept@ =~= filter_by(es.take(i + 1), bs));
                }
            } else {
                proof {
                    assert(kept@ =~= filter_by(es.take(i + 1), bs));
                }
            }
            i += 1;
        }
        self.pairs = kept;
        proof {
            assert(es.take(n as int) =~= es);
            lemma_view_entries_filter_by(es, bs);
            lemma_distinct_filter_by(view_entries(es), bs);
        }
    }


    /// One call outcome of `f` per stored value, in entry order.
    pub fn map<U, F: Fn(Option<&T>) -> Option<U>>(&self, f: F) -> (r: Vec<Option<U>>)
        requires
            self.wf(),
            forall|i: int|
                0 <= i < self.entries().len() ==> call_requires(
                    f,
                    (Some(&(#[trigger] self.entries()[i]).1),),
                ),
        ensures
            r@.len() == self.entries().len(),
            forall|i: int|
                0 <= i < r@.len() ==> call_ensures(
                    f,
                    (Some(&(#[trigger] self.entries()[i]).1),),
                    r@[i],
                ),
    {
        let n = self.pairs.len();
        let mut r: Vec<Option<U>> = Vec::new();
        let mut i: usize = 0;
        while i < n
            invariant
                n == self.entries().len(),
                forall|j: int|
                    0 <= j < n ==> call_requires(f, (Some(&(#[trigger] self.entries()[j]).1),)),
                0 <= i <= n,
                r@.len() == i,
                forall|j: int|
                    0 <= j < i ==> call_ensures(
                        f,
                        (Some(&(#[trigger] self.entries()[j]).1),),
                        r@[j],
                    ),
            decreases n - i,
        {
            proof {
                assert(self.entries()[i as int].1 == self.pairs@[i as int].1);
            }
            r.push(f(Some(&self.pairs[i].1)));
            i += 1;
        }
        r
    }

    /// Each coordinate with one call outcome of `f` for its pair, in
    /// entry order.
    pub fn indexed_map<U, F: Fn(&NDPoint, Option<&T>) -> Option<U>>(&self, f: F) -> (r: Vec<
        (&NDPoint, Option<U>),
    >)
        requires
            self.wf(),
            forall|i: int|
                0 <= i < self.raw_entries().len() ==> call_requires(
                    f,
                    (&(#[trigger] self.raw_entries()[i]).0, Some(&self.raw_entries()[i].1)),
                ),
        ensures
            r@.len() == self.raw_entries().len(),
            forall|i: int|
                0 <= i < r@.len() ==> *(#[trigger] r@[i]).0 == self.raw_entries()[i].0
                    && call_ensures(
                    f,
                    (&self.raw_entries()[i].0, Some(&self.raw_entries()[i].1)),
                    r@[i].1,
                ),
    {
        let n = self.pairs.len();
        let mut r: Vec<(&NDPoint, Option<U>)> = Vec::new();
        let mut i: usize = 0;
        while i < n
            invariant
                n == self.raw_entries().len(),
                forall|j: int|
                    0 <= j < n ==> call_requires(
                        f,
                        (&(#[trigger] self.raw_entries()[j]).0, Some(&self.raw_entries()[j].1)),
                    ),
                0 <= i <= n,
                r@.len() == i,
                forall|j: int|
                    0 <= j < i ==> *(#[trigger] r@[j]).0 == self.raw_entries()[j].0
                        && call_ensures(
                        f,
                        (&self.raw_entries()[j].0, Some(&self.raw_entries()[j].1)),
                        r@[j].1,
                    ),
            decreases n - i,
        {
            let pr = &self.pairs[i];
            let outcome = f(&pr.0, Some(&pr.1));
            r.push((&pr.0, outcome));
            i += 1;
        }
        r
    }


    /// Recomputes every stored value: each replacement is computed from
    /// the value the grid held *before* the update began, so an update
    /// rule never observes a sibling cell in its post-update state. A
    /// `None` outcome keeps the old value; keys are untouched.
    pub fn update<F: Fn(Option<&T>) -> Option<T>>(&mut self, f: F)
        requires
            old(self).wf(),
            forall|i: int|
                0 <= i < old(self).entries().len() ==> call_requires(
                    f,
                    (Some(&(#[trigger] old(self).entries()[i]).1),),
                ),
        ensures
            final(self).wf(),
            final(self).entries().len() == old(self).entries().len(),
            forall|i: int|
                0 <= i < old(self).entries().len() ==> (#[trigger] final(self).entries()[i]).0
                    == old(self).entries()[i].0,
            forall|i: int|
                0 <= i < old(self).entries().len() ==> call_ensures(
                    f,
                    (Some(&(#[trigger] old(self).entries()[i]).1),),
                    Some(final(self).entries()[i].1),
                ) || (call_ensures(f, (Some(&old(self).entries()[i].1),), None::<T>)
                    && final(self).entries()[i].1 == old(self).entries()[i].1),
    {
        let ghost es = self.entries();
        let ghost res = self.raw_entries();
        let n = self.pairs.len();
        let mut i: usize = 0;
        proof {
            assert forall|j: int| 0 <= j < n implies #[trigger] es[j] == (
                res[j].0.coords@,
                res[j].1,
            ) by {
                assert(es[j] == view_entries(res)[j]);
            }
        }
        while i < n
            invariant
                n == es.len(),
                n == res.len(),
                es == old(self).entries(),
                res == old(self).raw_entries(),
                forall|j: int| 0 <= j < n ==> #[trigger] es[j] == (res[j].0.coords@, res[j].1),
                self.pairs@.len() == n,
                forall|j: int| 0 <= j < n ==> call_requires(f, (Some(&(#[trigger] es[j]).1),)),
                0 <= i <= n,
                forall|j: int| i <= j < n ==> #[trigger] self.pairs@[j] == res[j],
                forall|j: int| 0 <= j < i ==> (#[trigger] self.pairs@[j]).0 == res[j].0,
                forall|j: int|
                    0 <= j < i ==> call_ensures(
                        f,
                        (Some(&(#[trigger] es[j]).1),),
                        Some(self.pairs@[j].1),
                    ) || (call_ensures(f, (Some(&es[j].1),), None::<T>) && self.pairs@[j].1
                        == es[j].1),
            decreases n - i,
        {
            proof {
                assert(self.pairs@[i as int].1 == es[i as int].1);
            }
            let outcome = f(Some(&self.pairs[i].1));
            match outcome {
                Some(nv) => {
                    let pr = &mut self.pairs[i];
                    pr.1 = nv;
                },
                None => {},
            }
            i += 1;
        }
        proof {
            assert forall|j: int| 0 <= j < n implies #[trigger] self.entries()[j] == (
                self.pairs@[j].0.coords@,
                self.pairs@[j].1,
            ) by {
                assert(self.entries()[j] == view_entries(self.pairs@)[j]);
            }
            assert forall|a: int, b: int|
                0 <= a < b < self.entries().len() implies (#[trigger] self.entries()[a]).0 != (
            #[trigger] self.entries()[b]).0 by {
                assert(self.entries()[a].0 == es[a].0);
                assert(self.entries()[b].0 == es[b].0);
            }
        }
    }

    /// Recomputes every stored value from its coordinate and the value
    /// held *before* the update began, as `update` does.
    pub fn indexed_update<F: Fn(&NDPoint, Option<&T>) -> Option<T>>(&mut self, f: F)
        requires
            old(self).wf(),
            forall|i: int|
                0 <= i < old(self).raw_entries().len() ==> call_requires(
                    f,
                    (
                        &(#[trigger] old(self).raw_entries()[i]).0,
                        Some(&old(self).raw_entries()[i].1),
                    ),
                ),
        ensures
            final(self).wf(),
            final(self).raw_entries().len() == old(self).raw_entries().len(),
            forall|i: int|
                0 <= i < old(self).raw_entries().len()
                    ==> (#[trigger] final(self).raw_entries()[i]).0
                    == old(self).raw_entries()[i].0,
            forall|i: int|
                0 <= i < old(self).raw_entries().len() ==> call_ensures(
                    f,
                    (
                        &(#[trigger] old(self).raw_entries()[i]).0,
                        Some(&old(self).raw_entries()[i].1),
                    ),
                    Some(final(self).raw_entries()[i].1),
                ) || (call_ensures(
                    f,
                    (&old(self).raw_entries()[i].0, Some(&old(self).raw_entries()[i].1)),
                    None::<T>,
                ) && final(self).raw_entries()[i].1 == old(self).raw_entries()[i].1),
    {
        let ghost es = self.raw_entries();
        let n = self.pairs.len();
        let mut i: usize = 0;
        while i < n
            invariant
                n == es.len(),
                es == old(self).raw_entries(),
                self.pairs@.len() == n,
                forall|j: int|
                    0 <= j < n ==> call_requires(
                        f,
                        (&(#[trigger] es[j]).0, Some(&es[j].1)),
                    ),
                0 <= i <= n,
                forall|j: int| i <= j < n ==> #[trigger] self.pairs@[j] == es[j],
                forall|j: int| 0 <= j < i ==> (#[trigger] self.pairs@[j]).0 == es[j].0,
                forall|j: int|
                    0 <= j < i ==> call_ensures(
                        f,
                        (&(#[trigger] es[j]).0, Some(&es[j].1)),
                        Some(self.pairs@[j].1),
                    ) || (call_ensures(f, (&es[j].0, Some(&es[j].1)), None::<T>)
                        && self.pairs@[j].1 == es[j].1),
            decreases n - i,
        {
            let pr0 = &self.pairs[i];
            let outcome = f(&pr0.0, Some(&pr0.1));
            match outcome {
                Some(nv) => {
                    let pr = &mut self.pairs[i];
                    pr.1 = nv;
                },
                None => {},
            }
            i += 1;
        }
        proof {
            assert forall|a: int, b: int|
                0 <= a < b < self.entries().len() implies (#[trigger] self.entries()[a]).0 != (
            #[trigger] self.entries()[b]).0 by {
                assert(self.entries()[a].0 == old(self).entries()[a].0);
                assert(self.entries()[b].0 == old(self).entries()[b].0);
            }
        }
    }


    /// The values stored at the neighbors of `p`, in enumeration order;
    /// absent neighbors are omitted, never materialized.
    pub fn neighbors(&self, p: &NDPoint) -> (r: Vec<&T>)
        requires
            self.wf(),
            forall|m: int|
                0 <= m < p.coords@.len() ==> isize::MIN < #[trigger] p.coords@[m] < isize::MAX,
            pow3(p.coords@.len() as nat) <= usize::MAX,
        ensures
            r@.len() == present_keys(nd_ring(p.coords@), self@).len(),
            forall|k: int|
                0 <= k < r@.len() ==> self@.contains_key(
                    #[trigger] present_keys(nd_ring(p.coords@), self@)[k],
                ) && *r@[k] == self@[present_keys(nd_ring(p.coords@), self@)[k]],
    {
        let cands = p.neighbors();
        let ghost cs = nd_ring(p.coords@);
        proof {
            assert forall|j: int| 0 <= j < cands@.len() implies (#[trigger] cands@[j]).coords@
                == cs[j] by {
                assert(to_ints(cands@[j].coords@) == offset_ints(
                    p.coords@,
                    trits(nbr_index(j, p.coords@.len()), p.coords@.len()),
                ));
                assert(cands@[j].coords@ =~= seq_isize(to_ints(cands@[j].coords@)));
            }
        }
        let m = cands.len();
        let mut r: Vec<&T> = Vec::new();
        let mut j: usize = 0;
        proof {
            assert(cs.take(0) =~= Seq::empty());
        }
        while j < m
            invariant
                self.wf(),
                m == cands@.len(),
                cs.len() == m,
                forall|jj: int| 0 <= jj < m ==> (#[trigger] cands@[jj]).coords@ == cs[jj],
                0 <= j <= m,
                r@.len() == present_keys(cs.take(j as int), self@).len(),
                forall|k: int|
                    0 <= k < r@.len() ==> self@.contains_key(
                        #[trigger] present_keys(cs.take(j as int), self@)[k],
                    ) && *r@[k] == self@[present_keys(cs.take(j as int), self@)[k]],
            decreases m - j,
        {
            proof {
                assert(cs.take(j + 1).drop_last() =~= cs.take(j as int));
                assert(cs.take(j + 1).last() == cs[j as int]);
            }
            match self.get(&cands[j]) {
                Some(v) => {
                    r.push(v);
                },
                None => {},
            }
            j += 1;
        }
        proof {
            assert(cs.take(m as int) =~= cs);
        }
        r
    }

    /// The coordinates of the neighbors of `p` that hold a value, in
    /// enumeration order.
    pub fn indexed_neighbors(&self, p: &NDPoint) -> (r: Vec<NDPoint>)
        requires
            self.wf(),
            forall|m: int|
                0 <= m < p.coords@.len() ==> isize::MIN < #[trigger] p.coords@[m] < isize::MAX,
            pow3(p.coords@.len() as nat) <= usize::MAX,
        ensures
            r@.len() == present_keys(nd_ring(p.coords@), self@).len(),
            forall|k: int|
                0 <= k < r@.len() ==> (#[trigger] r@[k]).coords@ == present_keys(
                    nd_ring(p.coords@),
                    self@,
                )[k],
    {
        let mut cands = p.neighbors();
        let ghost cs = nd_ring(p.coords@);
        proof {
            assert forall|j: int| 0 <= j < cands@.len() implies (#[trigger] cands@[j]).coords@
                == cs[j] by {
                assert(to_ints(cands@[j].coords@) == offset_ints(
                    p.coords@,
                    trits(nbr_index(j, p.coords@.len()), p.coords@.len()),
                ));
                assert(cands@[j].coords@ =~= seq_isize(to_ints(cands@[j].coords@)));
            }
        }
        let m = cands.len();
        let mut r: Vec<NDPoint> = Vec::new();
        let mut j: usize = 0;
        proof {
            assert(cs.take(0) =~= Seq::empty());
        }
        while j < m
            invariant
                self.wf(),
                cands@.len() == m - j,
                cs.len() == m,
                forall|jj: int|
                    0 <= jj < m - j ==> (#[trigger] cands@[jj]).coords@ == cs[j + jj],
                0 <= j <= m,
                r@.len() == present_keys(cs.take(j as int), self@).len(),
                forall|k: int|
                    0 <= k < r@.len() ==> (#[trigger] r@[k]).coords@ == present_keys(
                        cs.take(j as int),
                        self@,
                    )[k],
            decreases m - j,
        {
            proof {
                assert(cs.take(j + 1).drop_last() =~= cs.take(j as int));
                assert(cs.take(j + 1).last() == cs[j as int]);
                assert(cands@[0].coords@ == cs[j as int]);
            }
            let q = cands.remove(0);
            let present = self.get(&q).is_some();
            if present {
                r.push(q);
            }
            j += 1;
        }
        proof {
            assert(cs.take(m as int) =~= cs);
        }
        r
    }
}

impl<T> Default for NDGrid<T> {
    /// The empty grid.
    fn default() -> (g: Self)
        ensures
            g.wf(),
            g@ == Map::<Seq<isize>, T>::empty(),
            g.entries().len() == 0,
    {
        NDGrid::new()
    }
}

} // verus!

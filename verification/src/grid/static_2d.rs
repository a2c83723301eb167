//! A dense two-dimensional grid: a fixed rows-by-columns array of cells,
//! each either empty or occupied. The index set is exactly
//! `[0, rows) x [0, cols)`, fixed at construction; a cell's emptiness is
//! stored state, not key absence, and the grid is never resized.
//!
//! Neighbor queries compute candidate coordinates with wraparound
//! unsigned arithmetic and then discard any candidate that fails the
//! bounds check; that check is the sole mechanism keeping a row-0 or
//! column-0 neighbor from wrapping into a phantom maximum index.

use vstd::prelude::*;

verus! {

use crate::grid::model::filter_by;
use crate::point::unsigned::{u_cardinal_points, u_ring_points, UPoint};
use crate::text::{
    join_lines, join_text, lemma_join_split_lines, lemma_max_line_len, line_views, max_line_len,
    split_lines, split_text,
};
use vstd::arithmetic::div_mod::{
    lemma_fundamental_div_mod, lemma_fundamental_div_mod_converse,
    lemma_mod_division_less_than_divisor, lemma_multiply_divide_lt,
};
use vstd::arithmetic::mul::lemma_mul_inequality;
use vstd::std_specs::cmp::PartialEqSpec;

/// Whether a call of `f` on the cell state `x` is permitted.
pub open spec fn cell_req<T, F: Fn(Option<&T>) -> bool>(f: F, x: Option<T>) -> bool {
    if x is Some {
        call_requires(f, (Some(&x->0),))
    } else {
        call_requires(f, (None::<&T>,))
    }
}

/// Whether `out` is a possible outcome of calling `f` on cell state `x`.
pub open spec fn cell_ens<T, F: Fn(Option<&T>) -> bool>(f: F, x: Option<T>, out: bool) -> bool {
    if x is Some {
        call_ensures(f, (Some(&x->0),), out)
    } else {
        call_ensures(f, (None::<&T>,), out)
    }
}

/// `cell_req` for an indexed predicate.
pub open spec fn icell_req<T, F: Fn(usize, usize, Option<&T>) -> bool>(
    f: F,
    r: usize,
    c: usize,
    x: Option<T>,
) -> bool {
    if x is Some {
        call_requires(f, (r, c, Some(&x->0)))
    } else {
        call_requires(f, (r, c, None::<&T>))
    }
}

/// `cell_ens` for an indexed predicate.
pub open spec fn icell_ens<T, F: Fn(usize, usize, Option<&T>) -> bool>(
    f: F,
    r: usize,
    c: usize,
    x: Option<T>,
    out: bool,
) -> bool {
    if x is Some {
        call_ensures(f, (r, c, Some(&x->0)), out)
    } else {
        call_ensures(f, (r, c, None::<&T>), out)
    }
}

/// `cell_req` for a transform producing a new cell state.
pub open spec fn cell_map_req<T, U, F: Fn(Option<&T>) -> Option<U>>(f: F, x: Option<T>) -> bool {
    if x is Some {
        call_requires(f, (Some(&x->0),))
    } else {
        call_requires(f, (None::<&T>,))
    }
}

/// `cell_ens` for a transform producing a new cell state.
pub open spec fn cell_map_ens<T, U, F: Fn(Option<&T>) -> Option<U>>(
    f: F,
    x: Option<T>,
    out: Option<U>,
) -> bool {
    if x is Some {
        call_ensures(f, (Some(&x->0),), out)
    } else {
        call_ensures(f, (None::<&T>,), out)
    }
}

/// `cell_map_req` for an indexed transform.
pub open spec fn icell_map_req<T, U, F: Fn(usize, usize, Option<&T>) -> Option<U>>(
    f: F,
    r: usize,
    c: usize,
    x: Option<T>,
) -> bool {
    if x is Some {
        call_requires(f, (r, c, Some(&x->0)))
    } else {
        call_requires(f, (r, c, None::<&T>))
    }
}

/// `cell_map_ens` for an indexed transform.
pub open spec fn icell_map_ens<T, U, F: Fn(usize, usize, Option<&T>) -> Option<U>>(
    f: F,
    r: usize,
    c: usize,
    x: Option<T>,
    out: Option<U>,
) -> bool {
    if x is Some {
        call_ensures(f, (r, c, Some(&x->0)), out)
    } else {
        call_ensures(f, (r, c, None::<&T>), out)
    }
}

/// A dense grid of optional values over unsigned 2D coordinates, stored
/// in row-major order.
pub struct Static2DGrid<T> {
    rows: usize,
    cols: usize,
    data: Vec<Option<T>>,
}

/// The wrapping candidate coordinates that land inside an
/// `nrows x ncols` grid and whose cell there is occupied, in candidate
/// order.
pub open spec fn present_u_keys<T>(
    cands: Seq<UPoint>,
    nrows: int,
    ncols: int,
    cells: Seq<Option<T>>,
) -> Seq<UPoint>
    decreases cands.len(),
{
    if cands.len() == 0 {
        Seq::empty()
    } else {
        present_u_keys(cands.drop_last(), nrows, ncols, cells) + if cands.last().r < nrows
            && cands.last().c < ncols && cells[cands.last().r * ncols + cands.last().c] is Some {
            seq![cands.last()]
        } else {
            Seq::empty()
        }
    }
}

impl<T> Static2DGrid<T> {
    /// The row count, as a mathematical integer.
    pub closed spec fn nrows(&self) -> int {
        self.rows as int
    }

    /// The column count, as a mathematical integer.
    pub closed spec fn ncols(&self) -> int {
        self.cols as int
    }

    /// The cells in row-major order; index `r * ncols + c` is cell
    /// (r, c).
    pub closed spec fn cells(&self) -> Seq<Option<T>> {
        self.data@
    }

    /// The cell at (r, c).
    pub open spec fn cell(&self, r: int, c: int) -> Option<T>
        recommends
            0 <= r < self.nrows(),
            0 <= c < self.ncols(),
    {
        self.cells()[r * self.ncols() + c]
    }

    /// Well-formedness: the backing vector holds exactly
    /// `rows * cols` cells.
    pub closed spec fn wf(&self) -> bool {
        self.data@.len() == self.rows * self.cols
    }

    /// A well-formed grid holds exactly `nrows * ncols` cells.
    pub proof fn lemma_extent(&self)
        requires
            self.wf(),
        ensures
            self.cells().len() == self.nrows() * self.ncols(),
    {
    }

    proof fn lemma_index(&self, r: int, c: int)
        requires
            self.wf(),
            0 <= r < self.nrows(),
            0 <= c < self.ncols(),
        ensures
            0 <= r * self.ncols() + c < self.cells().len(),
            self.cells().len() <= usize::MAX,
    {
        broadcast use vstd::std_specs::vec::axiom_spec_len;

        assert(vstd::std_specs::vec::spec_vec_len(&self.data) == self.data@.len());
        lemma_mul_inequality(r, self.nrows() - 1, self.ncols());
        assert(self.nrows() * self.ncols() == (self.nrows() - 1) * self.ncols() + self.ncols())
            by (nonlinear_arith);
    }

    /// A grid with the given dimensions, every cell initially empty.
    pub fn new(rs: usize, cs: usize) -> (g: Self)
        requires
            rs * cs <= usize::MAX,
        ensures
            g.wf(),
            g.nrows() == rs,
            g.ncols() == cs,
            forall|k: int| 0 <= k < g.cells().len() ==> (#[trigger] g.cells()[k]) is None,
    {
        let total = rs * cs;
        let mut data: Vec<Option<T>> = Vec::new();
        let mut k: usize = 0;
        while k < total
            invariant
                0 <= k <= total,
                data@.len() == k,
                forall|j: int| 0 <= j < k ==> (#[trigger] data@[j]) is None,
            decreases total - k,
        {
            data.push(None);
            k += 1;
        }
        Static2DGrid { rows: rs, cols: cs, data }
    }

    /// The number of rows.
    pub fn rows(&self) -> (r: usize)
        ensures
            r == self.nrows(),
    {
        self.rows
    }

    /// The number of columns.
    pub fn columns(&self) -> (c: usize)
        ensures
            c == self.ncols(),
    {
        self.cols
    }

    /// Whether (r, c) lies inside the grid: strict less-than on both
    /// axes; no lower bound is needed on unsigned coordinates.
    pub fn in_bounds(&self, r: usize, c: usize) -> (b: bool)
        ensures
            b == (r < self.nrows() && c < self.ncols()),
    {
        r < self.rows && c < self.cols
    }

    /// The value at (r, c): nothing when out of range or when the cell
    /// is empty.
    pub fn get(&self, r: usize, c: usize) -> (res: Option<&T>)
        requires
            self.wf(),
        ensures
            match res {
                Some(v) => r < self.nrows() && c < self.ncols() && self.cell(r as int, c as int)
                    == Some(*v),
                None => !(r < self.nrows() && c < self.ncols()) || self.cell(
                    r as int,
                    c as int,
                ) is None,
            },
    {
        if r < self.rows && c < self.cols {
            proof {
                self.lemma_index(r as int, c as int);
            }
            self.data[r * self.cols + c].as_ref()
        } else {
            None
        }
    }

    /// The cell at (r, c) for mutation: nothing when out of range or
    /// empty. Writing through the returned reference updates that cell
    /// and nothing else.
    pub fn get_mut(&mut self, r: usize, c: usize) -> (res: Option<&mut T>)
        requires
            old(self).wf(),
        ensures
            final(self).wf(),
            final(self).nrows() == old(self).nrows(),
            final(self).ncols() == old(self).ncols(),
            match res {
                Some(m) => {
                    &&& r < old(self).nrows() && c < old(self).ncols()
                    &&& old(self).cell(r as int, c as int) == Some(*m)
                    &&& final(self).cells() == old(self).cells().update(
                        r * old(self).ncols() + c,
                        Some(*final(m)),
                    )
                },
                None => {
                    &&& !(r < old(self).nrows() && c < old(self).ncols()) || old(self).cell(
                        r as int,
                        c as int,
                    ) is None
                    &&& final(self).cells() == old(self).cells()
                },
            },
    {
        if r < self.rows && c < self.cols {
            proof {
                self.lemma_index(r as int, c as int);
            }
            let idx = r * self.cols + c;
            let ghost cs0 = self.data@;
            let res = match &mut self.data[idx] {
                Some(m) => Some(m),
                None => None,
            };
            proof {
                if res is None {
                    assert(cs0.update(idx as int, cs0[idx as int]) =~= cs0);
                }
            }
            res
        } else {
            None
        }
    }

    /// Stores `v` at (r, c), returning the prior occupant it displaced:
    /// nothing when the cell was empty or the coordinate out of range,
    /// in which latter case the grid is unchanged.
    pub fn set(&mut self, r: usize, c: usize, v: T) -> (res: Option<T>)
        requires
            old(self).wf(),
        ensures
            final(self).wf(),
            final(self).nrows() == old(self).nrows(),
            final(self).ncols() == old(self).ncols(),
            r < old(self).nrows() && c < old(self).ncols() ==> {
                &&& final(self).cells() == old(self).cells().update(
                    r * old(self).ncols() + c,
                    Some(v),
                )
                &&& res == old(self).cell(r as int, c as int)
            },
            !(r < old(self).nrows() && c < old(self).ncols()) ==> {
                &&& *final(self) == *old(self)
                &&& res is None
            },
    {
        if r < self.rows && c < self.cols {
            proof {
                self.lemma_index(r as int, c as int);
            }
            let idx = r * self.cols + c;
            let mut cell: Option<T> = Some(v);
            core::mem::swap(&mut self.data[idx], &mut cell);
            cell
        } else {
            None
        }
    }

    /// Whether the grid has zero rows and zero columns.
    pub fn is_empty(&self) -> (b: bool)
        ensures
            b == (self.nrows() == 0 && self.ncols() == 0),
    {
        self.rows == 0 && self.cols == 0
    }

    /// Whether every cell is empty.
    pub fn is_blank(&self) -> (b: bool)
        requires
            self.wf(),
        ensures
            b == (forall|k: int| 0 <= k < self.cells().len() ==> (#[trigger] self.cells()[k]) is None),
    {
        let total = self.data.len();
        let mut k: usize = 0;
        while k < total
            invariant
                total == self.cells().len(),
                0 <= k <= total,
                forall|j: int| 0 <= j < k ==> (#[trigger] self.cells()[j]) is None,
            decreases total - k,
        {
            if self.data[k].is_some() {
                return false;
            }
            k += 1;
        }
        true
    }

    /// A reference to every cell, in row-major order.
    pub fn iter(&self) -> (r: Vec<&Option<T>>)
        requires
            self.wf(),
        ensures
            r@.len() == self.cells().len(),
            forall|k: int| 0 <= k < r@.len() ==> *r@[k] == (#[trigger] self.cells()[k]),
    {
        let total = self.data.len();
        let mut r: Vec<&Option<T>> = Vec::new();
        let mut k: usize = 0;
        while k < total
            invariant
                total == self.cells().len(),
                0 <= k <= total,
                r@.len() == k,
                forall|j: int| 0 <= j < k ==> *r@[j] == (#[trigger] self.cells()[j]),
            decreases total - k,
        {
            r.push(&self.data[k]);
            k += 1;
        }
        r
    }

    /// Every (row, column, cell) triple, in row-major order.
    pub fn indexed_iter(&self) -> (r: Vec<(usize, usize, &Option<T>)>)
        requires
            self.wf(),
            self.ncols() > 0,
        ensures
            r@.len() == self.cells().len(),
            forall|k: int|
                0 <= k < r@.len() ==> (#[trigger] r@[k]).0 == k / self.ncols() && r@[k].1 == k
                    % self.ncols() && *r@[k].2 == self.cells()[k],
    {
        let total = self.data.len();
        let mut r: Vec<(usize, usize, &Option<T>)> = Vec::new();
        let mut k: usize = 0;
        while k < total
            invariant
                total == self.cells().len(),
                self.ncols() > 0,
                self.cols > 0,
                0 <= k <= total,
                r@.len() == k,
                forall|j: int|
                    0 <= j < k ==> (#[trigger] r@[j]).0 == j / self.ncols() && r@[j].1 == j
                        % self.ncols() && *r@[j].2 == self.cells()[j],
            decreases total - k,
        {
            r.push((k / self.cols, k % self.cols, &self.data[k]));
            k += 1;
        }
        r
    }

    /// Consumes the grid, yielding every (row, column, cell) triple in
    /// row-major order.
    pub fn into_indexed_iter(self) -> (r: Vec<(usize, usize, Option<T>)>)
        requires
            self.wf(),
            self.ncols() > 0,
        ensures
            r@.len() == self.cells().len(),
            forall|k: int|
                0 <= k < r@.len() ==> (#[trigger] r@[k]).0 == k / self.ncols() && r@[k].1 == k
                    % self.ncols() && r@[k].2 == self.cells()[k],
    {
        let ghost cs = self.cells();
        let ghost nc = self.ncols();
        let cols = self.cols;
        let mut data = self.data;
        let total = data.len();
        let mut r: Vec<(usize, usize, Option<T>)> = Vec::new();
        let mut k: usize = 0;
        while k < total
            invariant
                total == cs.len(),
                data@ == cs.skip(k as int),
                nc == cols,
                cols > 0,
                0 <= k <= total,
                r@.len() == k,
                forall|j: int|
                    0 <= j < k ==> (#[trigger] r@[j]).0 == j / nc && r@[j].1 == j % nc && r@[j].2
                        == cs[j],
            decreases total - k,
        {
            proof {
                assert(cs.skip(k as int)[0] == cs[k as int]);
                assert(cs.skip(k as int).remove(0) =~= cs.skip(k + 1));
            }
            let cell = data.remove(0);
            r.push((k / cols, k % cols, cell));
            k += 1;
        }
        r
    }

    /// Whether `f` accepts every cell, empty cells included; no cell is
    /// ever skipped.
    pub fn all<F: Fn(Option<&T>) -> bool>(&self, f: F) -> (res: bool)
        requires
            self.wf(),
            forall|k: int| 0 <= k < self.cells().len() ==> cell_req(f, #[trigger] self.cells()[k]),
        ensures
            res ==> forall|k: int|
                0 <= k < self.cells().len() ==> cell_ens(f, #[trigger] self.cells()[k], true),
            !res ==> exists|k: int|
                0 <= k < self.cells().len() && cell_ens(f, #[trigger] self.cells()[k], false),
    {
        let total = self.data.len();
        let mut k: usize = 0;
        while k < total
            invariant
                total == self.cells().len(),
                forall|j: int| 0 <= j < total ==> cell_req(f, #[trigger] self.cells()[j]),
                0 <= k <= total,
                forall|j: int| 0 <= j < k ==> cell_ens(f, #[trigger] self.cells()[j], true),
            decreases total - k,
        {
            if !f(self.data[k].as_ref()) {
                return false;
            }
            k += 1;
        }
        true
    }

    /// Whether `f` accepts every (row, column, cell) triple.
    pub fn indexed_all<F: Fn(usize, usize, Option<&T>) -> bool>(&self, f: F) -> (res: bool)
        requires
            self.wf(),
            self.ncols() > 0,
            forall|k: int|
                0 <= k < self.cells().len() ==> icell_req(
                    f,
                    (k / self.ncols()) as usize,
                    (k % self.ncols()) as usize,
                    #[trigger] self.cells()[k],
                ),
        ensures
            res ==> forall|k: int|
                0 <= k < self.cells().len() ==> icell_ens(
                    f,
                    (k / self.ncols()) as usize,
                    (k % self.ncols()) as usize,
                    #[trigger] self.cells()[k],
                    true,
                ),
            !res ==> exists|k: int|
                0 <= k < self.cells().len() && icell_ens(
                    f,
                    (k / self.ncols()) as usize,
                    (k % self.ncols()) as usize,
                    #[trigger] self.cells()[k],
                    false,
                ),
    {
        let total = self.data.len();
        let mut k: usize = 0;
        while k < total
            invariant
                total == self.cells().len(),
                self.ncols() > 0,
                self.cols > 0,
                forall|j: int|
                    0 <= j < total ==> icell_req(
                        f,
                        (j / self.ncols()) as usize,
                        (j % self.ncols()) as usize,
                        #[trigger] self.cells()[j],
                    ),
                0 <= k <= total,
                forall|j: int|
                    0 <= j < k ==> icell_ens(
                        f,
                        (j / self.ncols()) as usize,
                        (j % self.ncols()) as usize,
                        #[trigger] self.cells()[j],
                        true,
                    ),
            decreases total - k,
        {
            if !f(k / self.cols, k % self.cols, self.data[k].as_ref()) {
                return false;
            }
            k += 1;
        }
        true
    }

    /// Whether `f` accepts some cell, empty cells included.
    pub fn any<F: Fn(Option<&T>) -> bool>(&self, f: F) -> (res: bool)
        requires
            self.wf(),
            forall|k: int| 0 <= k < self.cells().len() ==> cell_req(f, #[trigger] self.cells()[k]),
        ensures
            res ==> exists|k: int|
                0 <= k < self.cells().len() && cell_ens(f, #[trigger] self.cells()[k], true),
            !res ==> forall|k: int|
                0 <= k < self.cells().len() ==> cell_ens(f, #[trigger] self.cells()[k], false),
    {
        let total = self.data.len();
        let mut k: usize = 0;
        while k < total
            invariant
                total == self.cells().len(),
                forall|j: int| 0 <= j < total ==> cell_req(f, #[trigger] self.cells()[j]),
                0 <= k <= total,
                forall|j: int| 0 <= j < k ==> cell_ens(f, #[trigger] self.cells()[j], false),
            decreases total - k,
        {
            if f(self.data[k].as_ref()) {
                return true;
            }
            k += 1;
        }
        false
    }

    /// Whether `f` accepts some (row, column, cell) triple.
    pub fn indexed_any<F: Fn(usize, usize, Option<&T>) -> bool>(&self, f: F) -> (res: bool)
        requires
            self.wf(),
            self.ncols() > 0,
            forall|k: int|
                0 <= k < self.cells().len() ==> icell_req(
                    f,
                    (k / self.ncols()) as usize,
                    (k % self.ncols()) as usize,
                    #[trigger] self.cells()[k],
                ),
        ensures
            res ==> exists|k: int|
                0 <= k < self.cells().len() && icell_ens(
                    f,
                    (k / self.ncols()) as usize,
                    (k % self.ncols()) as usize,
                    #[trigger] self.cells()[k],
                    true,
                ),
            !res ==> forall|k: int|
                0 <= k < self.cells().len() ==> icell_ens(
                    f,
                    (k / self.ncols()) as usize,
                    (k % self.ncols()) as usize,
                    #[trigger] self.cells()[k],
                    false,
                ),
    {
        let total = self.data.len();
        let mut k: usize = 0;
        while k < total
            invariant
                total == self.cells().len(),
                self.ncols() > 0,
                self.cols > 0,
                forall|j: int|
                    0 <= j < total ==> icell_req(
                        f,
                        (j / self.ncols()) as usize,
                        (j % self.ncols()) as usize,
                        #[trigger] self.cells()[j],
                    ),
                0 <= k <= total,
                forall|j: int|
                    0 <= j < k ==> icell_ens(
                        f,
                        (j / self.ncols()) as usize,
                        (j % self.ncols()) as usize,
                        #[trigger] self.cells()[j],
                        false,
                    ),
            decreases total - k,
        {
            if f(k / self.cols, k % self.cols, self.data[k].as_ref()) {
                return true;
            }
            k += 1;
        }
        false
    }

    /// The cells that `f` accepts, in row-major order; the decision
    /// sequence `bs` records one call outcome per cell.
    pub fn filter<F: Fn(Option<&T>) -> bool>(&self, f: F) -> (r: Vec<&Option<T>>)
        requires
            self.wf(),
            forall|k: int| 0 <= k < self.cells().len() ==> cell_req(f, #[trigger] self.cells()[k]),
        ensures
            exists|bs: Seq<bool>|
                {
                    &&& bs.len() == self.cells().len()
                    &&& (forall|k: int|
                        0 <= k < bs.len() ==> cell_ens(f, #[trigger] self.cells()[k], bs[k]))
                    &&& r@.len() == filter_by(self.cells(), bs).len()
                    &&& (forall|k: int|
                        0 <= k < r@.len() ==> *(#[trigger] r@[k]) == filter_by(
                            self.cells(),
                            bs,
                        )[k])
                },
    {
        let ghost cs = self.cells();
        let total = self.data.len();
        let mut r: Vec<&Option<T>> = Vec::new();
        let ghost mut bs: Seq<bool> = Seq::empty();
        let mut k: usize = 0;
        proof {
            assert(cs.take(0) =~= Seq::empty());
        }
        while k < total
            invariant
                total == cs.len(),
                cs == self.cells(),
                forall|j: int| 0 <= j < total ==> cell_req(f, #[trigger] cs[j]),
                0 <= k <= total,
                bs.len() == k,
                forall|j: int| 0 <= j < k ==> cell_ens(f, #[trigger] cs[j], bs[j]),
                r@.len() == filter_by(cs.take(k as int), bs).len(),
                forall|j: int|
                    0 <= j < r@.len() ==> *(#[trigger] r@[j]) == filter_by(
                        cs.take(k as int),
                        bs,
                    )[j],
            decreases total - k,
        {
            let keep = f(self.data[k].as_ref());
            proof {
                let bs1 = bs.push(keep);
                assert(cs.take(k + 1).drop_last() =~= cs.take(k as int));
                assert(bs1.drop_last() =~= bs);
                assert(cs.take(k + 1).last() == cs[k as int]);
                bs = bs1;
            }
            if keep {
                r.push(&self.data[k]);
            }
            k += 1;
        }
        proof {
            assert(cs.take(total as int) =~= cs);
        }
        r
    }

    /// The (row, column, cell) triples that `f` accepts, in row-major
    /// order. One call outcome is recorded per cell, and every yielded
    /// triple is an in-range cell on which `f` returned true.
    pub fn indexed_filter<F: Fn(usize, usize, Option<&T>) -> bool>(&self, f: F) -> (r: Vec<
        (usize, usize, &Option<T>),
    >)
        requires
            self.wf(),
            self.ncols() > 0,
            forall|k: int|
                0 <= k < self.cells().len() ==> icell_req(
                    f,
                    (k / self.ncols()) as usize,
                    (k % self.ncols()) as usize,
                    #[trigger] self.cells()[k],
                ),
        ensures
            exists|bs: Seq<bool>|
                {
                    &&& bs.len() == self.cells().len()
                    &&& (forall|k: int|
                        0 <= k < bs.len() ==> icell_ens(
                            f,
                            (k / self.ncols()) as usize,
                            (k % self.ncols()) as usize,
                            #[trigger] self.cells()[k],
                            bs[k],
                        ))
                },
            forall|j: int|
                0 <= j < r@.len() ==> {
                    &&& (#[trigger] r@[j]).0 < self.nrows()
                    &&& r@[j].1 < self.ncols()
                    &&& *r@[j].2 == self.cell(r@[j].0 as int, r@[j].1 as int)
                    &&& icell_ens(
                        f,
                        r@[j].0,
                        r@[j].1,
                        self.cell(r@[j].0 as int, r@[j].1 as int),
                        true,
                    )
                },
    {
        let ghost cs = self.cells();
        let total = self.data.len();
        let mut r: Vec<(usize, usize, &Option<T>)> = Vec::new();
        let ghost mut bs: Seq<bool> = Seq::empty();
        let mut k: usize = 0;
        while k < total
            invariant
                total == cs.len(),
                cs == self.cells(),
                self.wf(),
                self.ncols() > 0,
                self.cols > 0,
                forall|j: int|
                    0 <= j < total ==> icell_req(
                        f,
                        (j / self.ncols()) as usize,
                        (j % self.ncols()) as usize,
                        #[trigger] cs[j],
                    ),
                0 <= k <= total,
                bs.len() == k,
                forall|j: int|
                    0 <= j < k ==> icell_ens(
                        f,
                        (j / self.ncols()) as usize,
                        (j % self.ncols()) as usize,
                        #[trigger] cs[j],
                        bs[j],
                    ),
                forall|j: int|
                    0 <= j < r@.len() ==> {
                        &&& (#[trigger] r@[j]).0 < self.nrows()
                        &&& r@[j].1 < self.ncols()
                        &&& *r@[j].2 == self.cell(r@[j].0 as int, r@[j].1 as int)
                        &&& icell_ens(
                            f,
                            r@[j].0,
                            r@[j].1,
                            self.cell(r@[j].0 as int, r@[j].1 as int),
                            true,
                        )
                    },
            decreases total - k,
        {
            let keep = f(k / self.cols, k % self.cols, self.data[k].as_ref());
            proof {
                bs = bs.push(keep);
            }
            if keep {
                r.push((k / self.cols, k % self.cols, &self.data[k]));
                proof {
                    lemma_fundamental_div_mod(k as int, self.ncols());
                    assert(self.ncols() * self.nrows() == self.nrows() * self.ncols())
                        by (nonlinear_arith);
                    lemma_multiply_divide_lt(k as int, self.ncols(), self.nrows());
                    lemma_mod_division_less_than_divisor(k as int, self.ncols());
                    assert(self.ncols() * (k as int / self.ncols()) == (k as int / self.ncols())
                        * self.ncols()) by (nonlinear_arith);
                    assert((k as int / self.ncols()) * self.ncols() + (k as int % self.ncols())
                        == k as int);
                    let j = r@.len() - 1;
                    assert((#[trigger] r@[j]).0 == (k as int / self.ncols()) as usize);
                    assert(self.cell(r@[j].0 as int, r@[j].1 as int) == cs[k as int]);
                }
            }
            k += 1;
        }
        r
    }

    /// Empties every cell whose state `f` rejects; accepted cells keep
    /// their contents.
    pub fn retain<F: Fn(Option<&T>) -> bool>(&mut self, f: F)
        requires
            old(self).wf(),
            forall|k: int|
                0 <= k < old(self).cells().len() ==> cell_req(f, #[trigger] old(self).cells()[k]),
        ensures
            final(self).wf(),
            final(self).nrows() == old(self).nrows(),
            final(self).ncols() == old(self).ncols(),
            final(self).cells().len() == old(self).cells().len(),
            forall|k: int|
                0 <= k < old(self).cells().len() ==> (cell_ens(
                    f,
                    #[trigger] old(self).cells()[k],
                    true,
                ) && final(self).cells()[k] == old(self).cells()[k]) || (cell_ens(
                    f,
                    old(self).cells()[k],
                    false,
                ) && final(self).cells()[k] is None),
    {
        let ghost cs = self.cells();
        let total = self.data.len();
        let mut k: usize = 0;
        while k < total
            invariant
                total == cs.len(),
                cs == old(self).cells(),
                self.rows == old(self).rows,
                self.cols == old(self).cols,
                self.data@.len() == total,
                forall|j: int| 0 <= j < total ==> cell_req(f, #[trigger] cs[j]),
                0 <= k <= total,
                forall|j: int| k <= j < total ==> #[trigger] self.data@[j] == cs[j],
                forall|j: int|
                    0 <= j < k ==> (cell_ens(f, #[trigger] cs[j], true) && self.data@[j] == cs[j])
                        || (cell_ens(f, cs[j], false) && self.data@[j] is None),
            decreases total - k,
        {
            if !f(self.data[k].as_ref()) {
                let slot = &mut self.data[k];
                *slot = None;
            }
            k += 1;
        }
    }

    /// Empties every cell whose (row, column, cell) triple `f` rejects.
    pub fn indexed_retain<F: Fn(usize, usize, Option<&T>) -> bool>(&mut self, f: F)
        requires
            old(self).wf(),
            old(self).ncols() > 0,
            forall|k: int|
                0 <= k < old(self).cells().len() ==> icell_req(
                    f,
                    (k / old(self).ncols()) as usize,
                    (k % old(self).ncols()) as usize,
                    #[trigger] old(self).cells()[k],
                ),
        ensures
            final(self).wf(),
            final(self).nrows() == old(self).nrows(),
            final(self).ncols() == old(self).ncols(),
            final(self).cells().len() == old(self).cells().len(),
            forall|k: int|
                0 <= k < old(self).cells().len() ==> (icell_ens(
                    f,
                    (k / old(self).ncols()) as usize,
                    (k % old(self).ncols()) as usize,
                    #[trigger] old(self).cells()[k],
                    true,
                ) && final(self).cells()[k] == old(self).cells()[k]) || (icell_ens(
                    f,
                    (k / old(self).ncols()) as usize,
                    (k % old(self).ncols()) as usize,
                    old(self).cells()[k],
                    false,
                ) && final(self).cells()[k] is None),
    {
        let ghost cs = self.cells();
        let total = self.data.len();
        let mut k: usize = 0;
        while k < total
            invariant
                total == cs.len(),
                cs == old(self).cells(),
                self.rows == old(self).rows,
                self.cols == old(self).cols,
                self.cols > 0,
                self.ncols() == old(self).ncols(),
                self.data@.len() == total,
                forall|j: int|
                    0 <= j < total ==> icell_req(
                        f,
                        (j / old(self).ncols()) as usize,
                        (j % old(self).ncols()) as usize,
                        #[trigger] cs[j],
                    ),
                0 <= k <= total,
                forall|j: int| k <= j < total ==> #[trigger] self.data@[j] == cs[j],
                forall|j: int|
                    0 <= j < k ==> (icell_ens(
                        f,
                        (j / old(self).ncols()) as usize,
                        (j % old(self).ncols()) as usize,
                        #[trigger] cs[j],
                        true,
                    ) && self.data@[j] == cs[j]) || (icell_ens(
                        f,
                        (j / old(self).ncols()) as usize,
                        (j % old(self).ncols()) as usize,
                        cs[j],
                        false,
                    ) && self.data@[j] is None),
            decreases total - k,
        {
            if !f(k / self.cols, k % self.cols, self.data[k].as_ref()) {
                let slot = &mut self.data[k];
                *slot = None;
            }
            k += 1;
        }
    }

    /// One call outcome of `f` per cell, in row-major order.
    pub fn map<U, F: Fn(Option<&T>) -> Option<U>>(&self, f: F) -> (r: Vec<Option<U>>)
        requires
            self.wf(),
            forall|k: int|
                0 <= k < self.cells().len() ==> cell_map_req(f, #[trigger] self.cells()[k]),
        ensures
            r@.len() == self.cells().len(),
            forall|k: int|
                0 <= k < r@.len() ==> cell_map_ens(f, #[trigger] self.cells()[k], r@[k]),
    {
        let total = self.data.len();
        let mut r: Vec<Option<U>> = Vec::new();
        let mut k: usize = 0;
        while k < total
            invariant
                total == self.cells().len(),
                forall|j: int| 0 <= j < total ==> cell_map_req(f, #[trigger] self.cells()[j]),
                0 <= k <= total,
                r@.len() == k,
                forall|j: int| 0 <= j < k ==> cell_map_ens(f, #[trigger] self.cells()[j], r@[j]),
            decreases total - k,
        {
            r.push(f(self.data[k].as_ref()));
            k += 1;
        }
        r
    }

    /// Each (row, column) with one call outcome of `f` for its cell, in
    /// row-major order.
    pub fn indexed_map<U, F: Fn(usize, usize, Option<&T>) -> Option<U>>(&self, f: F) -> (r: Vec<
        (usize, usize, Option<U>),
    >)
        requires
            self.wf(),
            self.ncols() > 0,
            forall|k: int|
                0 <= k < self.cells().len() ==> icell_map_req(
                    f,
                    (k / self.ncols()) as usize,
                    (k % self.ncols()) as usize,
                    #[trigger] self.cells()[k],
                ),
        ensures
            r@.len() == self.cells().len(),
            forall|k: int|
                0 <= k < r@.len() ==> (#[trigger] r@[k]).0 == (k / self.ncols()) as usize
                    && r@[k].1 == (k % self.ncols()) as usize && icell_map_ens(
                    f,
                    (k / self.ncols()) as usize,
                    (k % self.ncols()) as usize,
                    self.cells()[k],
                    r@[k].2,
                ),
    {
        let total = self.data.len();
        let mut r: Vec<(usize, usize, Option<U>)> = Vec::new();
        let mut k: usize = 0;
        while k < total
            invariant
                total == self.cells().len(),
                self.ncols() > 0,
                self.cols > 0,
                forall|j: int|
                    0 <= j < total ==> icell_map_req(
                        f,
                        (j / self.ncols()) as usize,
                        (j % self.ncols()) as usize,
                        #[trigger] self.cells()[j],
                    ),
                0 <= k <= total,
                r@.len() == k,
                forall|j: int|
                    0 <= j < k ==> (#[trigger] r@[j]).0 == (j / self.ncols()) as usize && r@[j].1
                        == (j % self.ncols()) as usize && icell_map_ens(
                        f,
                        (j / self.ncols()) as usize,
                        (j % self.ncols()) as usize,
                        self.cells()[j],
                        r@[j].2,
                    ),
            decreases total - k,
        {
            let rr = k / self.cols;
            let cc = k % self.cols;
            let outcome = f(rr, cc, self.data[k].as_ref());
            r.push((rr, cc, outcome));
            k += 1;
        }
        r
    }

    /// Replaces every cell with the outcome of `f` on the state the
    /// grid held *before* the update began, so an update rule never
    /// observes a sibling cell in its post-update state. A `None`
    /// outcome leaves the cell empty.
    pub fn update<F: Fn(Option<&T>) -> Option<T>>(&mut self, f: F)
        requires
            old(self).wf(),
            forall|k: int|
                0 <= k < old(self).cells().len() ==> cell_map_req(
                    f,
                    #[trigger] old(self).cells()[k],
                ),
        ensures
            final(self).wf(),
            final(self).nrows() == old(self).nrows(),
            final(self).ncols() == old(self).ncols(),
            final(self).cells().len() == old(self).cells().len(),
            forall|k: int|
                0 <= k < old(self).cells().len() ==> cell_map_ens(
                    f,
                    #[trigger] old(self).cells()[k],
                    final(self).cells()[k],
                ),
    {
        let ghost cs = self.cells();
        let total = self.data.len();
        let mut k: usize = 0;
        while k < total
            invariant
                total == cs.len(),
                cs == old(self).cells(),
                self.rows == old(self).rows,
                self.cols == old(self).cols,
                self.data@.len() == total,
                forall|j: int| 0 <= j < total ==> cell_map_req(f, #[trigger] cs[j]),
                0 <= k <= total,
                forall|j: int| k <= j < total ==> #[trigger] self.data@[j] == cs[j],
                forall|j: int| 0 <= j < k ==> cell_map_ens(f, #[trigger] cs[j], self.data@[j]),
            decreases total - k,
        {
            let outcome = f(self.data[k].as_ref());
            let slot = &mut self.data[k];
            *slot = outcome;
            k += 1;
        }
    }

    /// Replaces every cell with the outcome of `f` on its coordinates
    /// and the state held *before* the update began, as `update` does.
    pub fn indexed_update<F: Fn(usize, usize, Option<&T>) -> Option<T>>(&mut self, f: F)
        requires
            old(self).wf(),
            old(self).ncols() > 0,
            forall|k: int|
                0 <= k < old(self).cells().len() ==> icell_map_req(
                    f,
                    (k / old(self).ncols()) as usize,
                    (k % old(self).ncols()) as usize,
                    #[trigger] old(self).cells()[k],
                ),
        ensures
            final(self).wf(),
            final(self).nrows() == old(self).nrows(),
            final(self).ncols() == old(self).ncols(),
            final(self).cells().len() == old(self).cells().len(),
            forall|k: int|
                0 <= k < old(self).cells().len() ==> icell_map_ens(
                    f,
                    (k / old(self).ncols()) as usize,
                    (k % old(self).ncols()) as usize,
                    #[trigger] old(self).cells()[k],
                    final(self).cells()[k],
                ),
    {
        let ghost cs = self.cells();
        let total = self.data.len();
        let mut k: usize = 0;
        while k < total
            invariant
                total == cs.len(),
                cs == old(self).cells(),
                self.rows == old(self).rows,
                self.cols == old(self).cols,
                self.cols > 0,
                self.ncols() == old(self).ncols(),
                self.data@.len() == total,
                forall|j: int|
                    0 <= j < total ==> icell_map_req(
                        f,
                        (j / old(self).ncols()) as usize,
                        (j % old(self).ncols()) as usize,
                        #[trigger] cs[j],
                    ),
                0 <= k <= total,
                forall|j: int| k <= j < total ==> #[trigger] self.data@[j] == cs[j],
                forall|j: int|
                    0 <= j < k ==> icell_map_ens(
                        f,
                        (j / old(self).ncols()) as usize,
                        (j % old(self).ncols()) as usize,
                        #[trigger] cs[j],
                        self.data@[j],
                    ),
            decreases total - k,
        {
            let outcome = f(k / self.cols, k % self.cols, self.data[k].as_ref());
            let slot = &mut self.data[k];
            *slot = outcome;
            k += 1;
        }
    }

    /// The values at the four wrapping cardinal neighbor candidates of
    /// (r, c) that fall in bounds and hold a value, in candidate order.
    pub fn cardinal_neighbors(&self, r: usize, c: usize) -> (res: Vec<&T>)
        requires
            self.wf(),
        ensures
            ({
                let pk = present_u_keys(
                    u_cardinal_points(UPoint { r, c }),
                    self.nrows(),
                    self.ncols(),
                    self.cells(),
                );
                &&& res@.len() == pk.len()
                &&& forall|k: int|
                    0 <= k < res@.len() ==> self.cell(
                        (#[trigger] pk[k]).r as int,
                        pk[k].c as int,
                    ) == Some(*res@[k])
            }),
    {
        let cands = UPoint { r, c }.cardinal_neighbors();
        let ghost cs = u_cardinal_points(UPoint { r, c });
        let mut res: Vec<&T> = Vec::new();
        let mut j: usize = 0;
        proof {
            assert(cs.take(0) =~= Seq::empty());
        }
        while j < 4
            invariant
                self.wf(),
                cands@ == cs,
                cs.len() == 4,
                0 <= j <= 4,
                ({
                    let pk = present_u_keys(
                        cs.take(j as int),
                        self.nrows(),
                        self.ncols(),
                        self.cells(),
                    );
                    &&& res@.len() == pk.len()
                    &&& forall|k: int|
                        0 <= k < res@.len() ==> self.cell(
                            (#[trigger] pk[k]).r as int,
                            pk[k].c as int,
                        ) == Some(*res@[k])
                }),
            decreases 4 - j,
        {
            proof {
                assert(cs.take(j + 1).drop_last() =~= cs.take(j as int));
                assert(cs.take(j + 1).last() == cs[j as int]);
            }
            match self.get(cands[j].r, cands[j].c) {
                Some(v) => {
                    res.push(v);
                },
                None => {},
            }
            j += 1;
        }
        proof {
            assert(cs.take(4) =~= cs);
        }
        res
    }

    /// The values at the eight wrapping neighbor candidates of (r, c)
    /// that fall in bounds and hold a value, in candidate order.
    pub fn all_neighbors(&self, r: usize, c: usize) -> (res: Vec<&T>)
        requires
            self.wf(),
        ensures
            ({
                let pk = present_u_keys(
                    u_ring_points(UPoint { r, c }),
                    self.nrows(),
                    self.ncols(),
                    self.cells(),
                );
                &&& res@.len() == pk.len()
                &&& forall|k: int|
                    0 <= k < res@.len() ==> self.cell(
                        (#[trigger] pk[k]).r as int,
                        pk[k].c as int,
                    ) == Some(*res@[k])
            }),
    {
        let cands = UPoint { r, c }.all_neighbors();
        let ghost cs = u_ring_points(UPoint { r, c });
        let mut res: Vec<&T> = Vec::new();
        let mut j: usize = 0;
        proof {
            assert(cs.take(0) =~= Seq::empty());
        }
        while j < 8
            invariant
                self.wf(),
                cands@ == cs,
                cs.len() == 8,
                0 <= j <= 8,
                ({
                    let pk = present_u_keys(
                        cs.take(j as int),
                        self.nrows(),
                        self.ncols(),
                        self.cells(),
                    );
                    &&& res@.len() == pk.len()
                    &&& forall|k: int|
                        0 <= k < res@.len() ==> self.cell(
                            (#[trigger] pk[k]).r as int,
                            pk[k].c as int,
                        ) == Some(*res@[k])
                }),
            decreases 8 - j,
        {
            proof {
                assert(cs.take(j + 1).drop_last() =~= cs.take(j as int));
                assert(cs.take(j + 1).last() == cs[j as int]);
            }
            match self.get(cands[j].r, cands[j].c) {
                Some(v) => {
                    res.push(v);
                },
                None => {},
            }
            j += 1;
        }
        proof {
            assert(cs.take(8) =~= cs);
        }
        res
    }

    /// The coordinates among the four wrapping cardinal neighbor
    /// candidates of (r, c) that fall in bounds and hold a value, in
    /// candidate order.
    pub fn indexed_cardinal_neighbors(&self, r: usize, c: usize) -> (res: Vec<UPoint>)
        requires
            self.wf(),
        ensures
            res@ == present_u_keys(
                u_cardinal_points(UPoint { r, c }),
                self.nrows(),
                self.ncols(),
                self.cells(),
            ),
    {
        let cands = UPoint { r, c }.cardinal_neighbors();
        let ghost cs = u_cardinal_points(UPoint { r, c });
        let mut res: Vec<UPoint> = Vec::new();
        let mut j: usize = 0;
        proof {
            assert(cs.take(0) =~= Seq::empty());
        }
        while j < 4
            invariant
                self.wf(),
                cands@ == cs,
                cs.len() == 4,
                0 <= j <= 4,
                res@ == present_u_keys(cs.take(j as int), self.nrows(), self.ncols(), self.cells()),
            decreases 4 - j,
        {
            proof {
                assert(cs.take(j + 1).drop_last() =~= cs.take(j as int));
                assert(cs.take(j + 1).last() == cs[j as int]);
            }
            if self.get(cands[j].r, cands[j].c).is_some() {
                res.push(cands[j]);
                proof {
                    assert(res@ =~= present_u_keys(
                        cs.take(j + 1),
                        self.nrows(),
                        self.ncols(),
                        self.cells(),
                    ));
                }
            } else {
                proof {
                    assert(res@ =~= present_u_keys(
                        cs.take(j + 1),
                        self.nrows(),
                        self.ncols(),
                        self.cells(),
                    ));
                }
            }
            j += 1;
        }
        proof {
            assert(cs.take(4) =~= cs);
        }
        res
    }

    /// The coordinates among the eight wrapping neighbor candidates of
    /// (r, c) that fall in bounds and hold a value, in candidate order.
    pub fn indexed_all_neighbors(&self, r: usize, c: usize) -> (res: Vec<UPoint>)
        requires
            self.wf(),
        ensures
            res@ == present_u_keys(
                u_ring_points(UPoint { r, c }),
                self.nrows(),
                self.ncols(),
                self.cells(),
            ),
    {
        let cands = UPoint { r, c }.all_neighbors();
        let ghost cs = u_ring_points(UPoint { r, c });
        let mut res: Vec<UPoint> = Vec::new();
        let mut j: usize = 0;
        proof {
            assert(cs.take(0) =~= Seq::empty());
        }
        while j < 8
            invariant
                self.wf(),
                cands@ == cs,
                cs.len() == 8,
                0 <= j <= 8,
                res@ == present_u_keys(cs.take(j as int), self.nrows(), self.ncols(), self.cells()),
            decreases 8 - j,
        {
            proof {
                assert(cs.take(j + 1).drop_last() =~= cs.take(j as int));
                assert(cs.take(j + 1).last() == cs[j as int]);
            }
            if self.get(cands[j].r, cands[j].c).is_some() {
                res.push(cands[j]);
                proof {
                    assert(res@ =~= present_u_keys(
                        cs.take(j + 1),
                        self.nrows(),
                        self.ncols(),
                        self.cells(),
                    ));
                }
            } else {
                proof {
                    assert(res@ =~= present_u_keys(
                        cs.take(j + 1),
                        self.nrows(),
                        self.ncols(),
                        self.cells(),
                    ));
                }
            }
            j += 1;
        }
        proof {
            assert(cs.take(8) =~= cs);
        }
        res
    }
}



/// Whether a stored cell state equals a sought cell state, under the
/// element type's own equality.
pub open spec fn cell_matches<T: PartialEq>(a: Option<T>, t: Option<&T>) -> bool {
    match (a, t) {
        (Some(x), Some(y)) => x.eq_spec(y),
        (None, None) => true,
        _ => false,
    }
}


/// A parsed grid renders back to its lines: when no line ends in a
/// space, the rendered rows of a grid holding `parse_cell(ls, r, c)` at
/// every cell are exactly `ls`. Together with the splitting and joining
/// laws, parsing a text with no trailing blanks and rendering it
/// reproduces the text.
pub proof fn lemma_parse_then_render(g: Static2DGrid<char>, ls: Seq<Seq<char>>)
    requires
        g.wf(),
        g.nrows() == ls.len(),
        g.ncols() == max_line_len(ls),
        forall|r: int, c: int|
            0 <= r < g.nrows() && 0 <= c < g.ncols() ==> #[trigger] g.cell(r, c) == parse_cell(
                ls,
                r,
                c,
            ),
        forall|r: int|
            0 <= r < ls.len() ==> ((#[trigger] ls[r]).len() > 0 ==> ls[r][ls[r].len() - 1] != ' '),
    ensures
        g.rendered_rows() == ls,
{
    lemma_max_line_len(ls);
    assert forall|r: int| 0 <= r < ls.len() implies #[trigger] g.trimmed_row(r) == ls[r] by {
        let len = ls[r].len() as int;
        lemma_trimmed_width(g, ls, r, g.ncols());
        if len > 0 {
            assert(g.cell(r, len - 1) == parse_cell(ls, r, len - 1));
            assert(parse_cell(ls, r, len - 1) is Some);
        }
        assert(g.row_width(r, len) == len);
        assert(g.row_width(r, g.ncols()) == len);
        assert forall|c: int| 0 <= c < len implies g.trimmed_row(r)[c] == ls[r][c] by {
            assert(g.cell(r, c) == parse_cell(ls, r, c));
        }
        assert(g.trimmed_row(r) =~= ls[r]);
    }
    assert(g.rendered_rows() =~= ls);
}

/// The full round trip: a grid parsed from a text whose lines carry no
/// trailing spaces, where the text itself does not end in a line break,
/// renders back to exactly that text.
pub proof fn lemma_text_round_trip(g: Static2DGrid<char>, t: Seq<char>)
    requires
        g.wf(),
        g.nrows() == split_lines(t).len(),
        g.ncols() == max_line_len(split_lines(t)),
        forall|r: int, c: int|
            0 <= r < g.nrows() && 0 <= c < g.ncols() ==> #[trigger] g.cell(r, c) == parse_cell(
                split_lines(t),
                r,
                c,
            ),
        forall|r: int|
            0 <= r < split_lines(t).len() ==> ((#[trigger] split_lines(t)[r]).len() > 0
                ==> split_lines(t)[r][split_lines(t)[r].len() - 1] != ' '),
        t.len() > 0 ==> t.last() != '\n',
    ensures
        join_lines(g.rendered_rows()) == t,
{
    lemma_parse_then_render(g, split_lines(t));
    lemma_join_split_lines(t);
}

/// Scanning the rendered width down from any column past the line's
/// end stops at the line's end.
proof fn lemma_trimmed_width(g: Static2DGrid<char>, ls: Seq<Seq<char>>, r: int, w: int)
    requires
        g.wf(),
        g.nrows() == ls.len(),
        g.ncols() == max_line_len(ls),
        0 <= r < ls.len(),
        ls[r].len() <= w <= g.ncols(),
        forall|r2: int, c2: int|
            0 <= r2 < g.nrows() && 0 <= c2 < g.ncols() ==> #[trigger] g.cell(r2, c2) == parse_cell(
                ls,
                r2,
                c2,
            ),
    ensures
        g.row_width(r, w) == g.row_width(r, ls[r].len() as int),
    decreases w,
{
    if w > ls[r].len() {
        assert(g.cell(r, w - 1) == parse_cell(ls, r, w - 1));
        assert(parse_cell(ls, r, w - 1) is None);
        lemma_trimmed_width(g, ls, r, w - 1);
    }
}

impl<T: PartialEq> Static2DGrid<T> {
    /// The first coordinate in row-major order whose cell equals
    /// `target`; the target may itself be "empty", matching the first
    /// empty cell. The contract speaks under `obeys_eq_spec`, which
    /// holds whenever the element's `==` agrees with its specification.
    pub fn find(&self, target: Option<&T>) -> (res: Option<UPoint>)
        requires
            self.wf(),
            self.ncols() > 0,
        ensures
            T::obeys_eq_spec() ==> match res {
                Some(p) => {
                    &&& p.r < self.nrows() && p.c < self.ncols()
                    &&& cell_matches(self.cell(p.r as int, p.c as int), target)
                    &&& forall|k: int|
                        0 <= k < p.r * self.ncols() + p.c ==> !cell_matches(
                            #[trigger] self.cells()[k],
                            target,
                        )
                },
                None => forall|k: int|
                    0 <= k < self.cells().len() ==> !cell_matches(
                        #[trigger] self.cells()[k],
                        target,
                    ),
            },
    {
        let total = self.data.len();
        let mut k: usize = 0;
        while k < total
            invariant
                self.wf(),
                total == self.cells().len(),
                self.ncols() > 0,
                self.cols > 0,
                0 <= k <= total,
                T::obeys_eq_spec() ==> forall|j: int|
                    0 <= j < k ==> !cell_matches(#[trigger] self.cells()[j], target),
            decreases total - k,
        {
            let hit = match (&self.data[k], target) {
                (Some(x), Some(y)) => x == y,
                (None, None) => true,
                _ => false,
            };
            if hit {
                let rr = k / self.cols;
                let cc = k % self.cols;
                proof {
                    lemma_fundamental_div_mod(k as int, self.ncols());
                    assert(self.ncols() * self.nrows() == self.nrows() * self.ncols())
                        by (nonlinear_arith);
                    lemma_multiply_divide_lt(k as int, self.ncols(), self.nrows());
                    lemma_mod_division_less_than_divisor(k as int, self.ncols());
                    assert(self.ncols() * (k as int / self.ncols()) == (k as int / self.ncols())
                        * self.ncols()) by (nonlinear_arith);
                    assert(rr * self.ncols() + cc == k as int);
                }
                return Some(UPoint { r: rr, c: cc });
            }
            k += 1;
        }
        None
    }
}

/// The parsed state of cell (r, c) of a line list: the character there,
/// unless the line is short or holds a space.
pub open spec fn parse_cell(ls: Seq<Seq<char>>, r: int, c: int) -> Option<char> {
    if 0 <= r < ls.len() && 0 <= c < ls[r].len() && ls[r][c] != ' ' {
        Some(ls[r][c])
    } else {
        None
    }
}

/// One rendered character: the occupant, or a space for an empty cell.
pub open spec fn render_ch(x: Option<char>) -> char {
    match x {
        Some(ch) => ch,
        None => ' ',
    }
}

impl Static2DGrid<char> {
    /// The rendered width of row `r` when only the first `c` columns
    /// are considered: the column just past the last occupied cell.
    pub open spec fn row_width(&self, r: int, c: int) -> int
        decreases c,
    {
        if c <= 0 {
            0
        } else if self.cell(r, c - 1) is Some {
            c
        } else {
            self.row_width(r, c - 1)
        }
    }

    /// Row `r` rendered with its trailing empty cells trimmed.
    pub open spec fn trimmed_row(&self, r: int) -> Seq<char> {
        Seq::new(
            self.row_width(r, self.ncols()) as nat,
            |c: int| render_ch(self.cell(r, c)),
        )
    }

    /// Every row rendered, top to bottom.
    pub open spec fn rendered_rows(&self) -> Seq<Seq<char>> {
        Seq::new(self.nrows() as nat, |r: int| self.trimmed_row(r))
    }

    /// A grid parsed from text: each input line is a row, the column
    /// count is the longest line's length, a space leaves a cell empty,
    /// and any other character occupies it.
    pub fn from_text(t: &str) -> (g: Self)
        requires
            split_lines(t@).len() * max_line_len(split_lines(t@)) <= usize::MAX,
        ensures
            g.wf(),
            g.nrows() == split_lines(t@).len(),
            g.ncols() == max_line_len(split_lines(t@)),
            forall|r: int, c: int|
                0 <= r < g.nrows() && 0 <= c < g.ncols() ==> #[trigger] g.cell(r, c) == parse_cell(
                    split_lines(t@),
                    r,
                    c,
                ),
    {
        let ghost ls = split_lines(t@);
        let lines = split_text(t);
        let rows = lines.len();
        let mut cols: usize = 0;
        let mut r: usize = 0;
        proof {
            lemma_max_line_len(ls);
            assert(line_views(lines@).take(0) =~= Seq::<Seq<char>>::empty());
        }
        while r < rows
            invariant
                rows == lines@.len(),
                line_views(lines@) == ls,
                0 <= r <= rows,
                cols == max_line_len(ls.take(r as int)),
            decreases rows - r,
        {
            proof {
                assert(ls.take(r + 1).drop_last() =~= ls.take(r as int));
                assert(ls.take(r + 1).last() == ls[r as int]);
                assert(ls[r as int] == lines@[r as int]@);
            }
            if lines[r].len() > cols {
                cols = lines[r].len();
            }
            r += 1;
        }
        proof {
            assert(ls.take(rows as int) =~= ls);
        }
        let mut g = Static2DGrid::new(rows, cols);
        proof {
            assert forall|r2: int, c2: int|
                0 <= r2 < rows && 0 <= c2 < cols implies (#[trigger] g.cell(r2, c2)) is None by {
                g.lemma_index(r2, c2);
            }
        }
        let mut r: usize = 0;
        while r < rows
            invariant
                rows == lines@.len(),
                line_views(lines@) == ls,
                cols == max_line_len(ls),
                g.wf(),
                g.nrows() == rows,
                g.ncols() == cols,
                0 <= r <= rows,
                forall|r2: int, c2: int|
                    0 <= r2 < rows && 0 <= c2 < cols ==> #[trigger] g.cell(r2, c2) == (if r2 < r {
                        parse_cell(ls, r2, c2)
                    } else {
                        None
                    }),
            decreases rows - r,
        {
            let line = &lines[r];
            let m = line.len();
            proof {
                lemma_max_line_len(ls);
                assert(ls[r as int] == lines@[r as int]@);
            }
            let mut c: usize = 0;
            while c < m
                invariant
                    rows == lines@.len(),
                    line_views(lines@) == ls,
                    cols == max_line_len(ls),
                    line@ == ls[r as int],
                    m == line@.len(),
                    m <= cols,
                    r < rows,
                    g.wf(),
                    g.nrows() == rows,
                    g.ncols() == cols,
                    0 <= c <= m,
                    forall|r2: int, c2: int|
                        0 <= r2 < rows && 0 <= c2 < cols ==> #[trigger] g.cell(r2, c2) == (if r2
                            < r || (r2 == r && c2 < c) {
                            parse_cell(ls, r2, c2)
                        } else {
                            None
                        }),
                decreases m - c,
            {
                let ghost gpre = g;
                let ch = line[c];
                if ch != ' ' {
                    g.set(r, c, ch);
                }
                proof {
                    assert forall|r2: int, c2: int|
                        0 <= r2 < rows && 0 <= c2 < cols implies #[trigger] g.cell(r2, c2) == (
                    if r2 < r || (r2 == r && c2 < c + 1) {
                        parse_cell(ls, r2, c2)
                    } else {
                        None
                    }) by {
                        gpre.lemma_index(r2, c2);
                        gpre.lemma_index(r as int, c as int);
                        if ch != ' ' {
                            if r2 == r && c2 == c {
                            } else {
                                assert(r2 * g.ncols() + c2 != r as int * g.ncols() + c as int)
                                    by {
                                    if r2 * g.ncols() + c2 == r as int * g.ncols() + c as int {
                                        lemma_fundamental_div_mod_converse(
                                            r2 * g.ncols() + c2,
                                            g.ncols(),
                                            r2,
                                            c2,
                                        );
                                        lemma_fundamental_div_mod_converse(
                                            r as int * g.ncols() + c as int,
                                            g.ncols(),
                                            r as int,
                                            c as int,
                                        );
                                    }
                                }
                                assert(g.cell(r2, c2) == gpre.cell(r2, c2));
                            }
                        }
                    }
                }
                c += 1;
            }
            r += 1;
        }
        g
    }

    /// The grid rendered as text: occupied cells as their character,
    /// empty cells as spaces, each row's trailing empty cells trimmed,
    /// rows joined by line breaks.
    pub fn render(&self) -> (out: String)
        requires
            self.wf(),
        ensures
            out@ == join_lines(self.rendered_rows()),
    {
        let nr = self.rows();
        let nc = self.columns();
        let mut rows: Vec<Vec<char>> = Vec::new();
        let mut r: usize = 0;
        proof {
            assert(line_views(rows@) =~= Seq::<Seq<char>>::empty());
            assert(self.rendered_rows().take(0) =~= Seq::<Seq<char>>::empty());
        }
        while r < nr
            invariant
                self.wf(),
                nr == self.nrows(),
                nc == self.ncols(),
                0 <= r <= nr,
                line_views(rows@) == self.rendered_rows().take(r as int),
            decreases nr - r,
        {
            let mut w: usize = nc;
            while w > 0 && self.get(r, w - 1).is_none()
                invariant
                    self.wf(),
                    nr == self.nrows(),
                    nc == self.ncols(),
                    r < nr,
                    0 <= w <= nc,
                    self.row_width(r as int, nc as int) == self.row_width(r as int, w as int),
                decreases w,
            {
                w -= 1;
            }
            proof {
                if w > 0 {
                    assert(self.cell(r as int, w - 1) is Some);
                }
                assert(self.row_width(r as int, nc as int) == w);
            }
            let mut row: Vec<char> = Vec::new();
            let mut c: usize = 0;
            while c < w
                invariant
                    self.wf(),
                    nr == self.nrows(),
                    nc == self.ncols(),
                    r < nr,
                    w <= nc,
                    0 <= c <= w,
                    row@.len() == c,
                    forall|c2: int|
                        0 <= c2 < c ==> #[trigger] row@[c2] == render_ch(self.cell(r as int, c2)),
                decreases w - c,
            {
                match self.get(r, c) {
                    Some(v) => {
                        row.push(*v);
                    },
                    None => {
                        row.push(' ');
                    },
                }
                c += 1;
            }
            let ghost rows_pre = rows@;
            rows.push(row);
            proof {
                assert(row@ =~= self.trimmed_row(r as int));
                assert(line_views(rows@) =~= line_views(rows_pre).push(row@));
                assert(self.rendered_rows().take(r + 1).drop_last() =~= self.rendered_rows().take(
                    r as int,
                ));
                assert(self.rendered_rows().take(r + 1).last() == self.trimmed_row(r as int));
                assert(line_views(rows@) =~= self.rendered_rows().take(r + 1));
            }
            r += 1;
        }
        proof {
            assert(self.rendered_rows().take(nr as int) =~= self.rendered_rows());
        }
        join_text(&rows)
    }
}

} // verus!

//! A dense integer matrix: componentwise addition and subtraction,
//! matrix multiplication, and transposition.

use vstd::prelude::*;

verus! {

/// A rows-by-cols matrix of signed integers.
pub struct Matrix {
    rows: usize,
    cols: usize,
    data: Vec<Vec<isize>>,
}

/// The dot product of row `i` of `a` and column `j` of `b`, over the
/// first `k` terms.
pub open spec fn dot_prefix(a: Matrix, b: Matrix, i: int, j: int, k: int) -> int
    decreases k,
{
    if k <= 0 {
        0
    } else {
        dot_prefix(a, b, i, j, k - 1) + a.at(i, k - 1) * b.at(k - 1, j)
    }
}

impl Matrix {
    /// The row count.
    pub closed spec fn nrows(&self) -> int {
        self.rows as int
    }

    /// The column count.
    pub closed spec fn ncols(&self) -> int {
        self.cols as int
    }

    /// The entry at row `r`, column `c`.
    pub closed spec fn at(self, r: int, c: int) -> int
        recommends
            0 <= r < self.nrows(),
            0 <= c < self.ncols(),
    {
        self.data@[r]@[c] as int
    }

    /// Well-formedness: the backing rows exist and all share the column
    /// count.
    pub closed spec fn wf(&self) -> bool {
        self.data@.len() == self.rows && forall|r: int|
            0 <= r < self.data@.len() ==> (#[trigger] self.data@[r])@.len() == self.cols
    }

    /// A rows-by-cols matrix of zeros.
    pub fn new(rows: usize, cols: usize) -> (m: Self)
        ensures
            m.wf(),
            m.nrows() == rows,
            m.ncols() == cols,
            forall|r: int, c: int| 0 <= r < rows && 0 <= c < cols ==> #[trigger] m.at(r, c) == 0,
    {
        let mut data: Vec<Vec<isize>> = Vec::new();
        let mut r: usize = 0;
        while r < rows
            invariant
                0 <= r <= rows,
                data@.len() == r,
                forall|i: int| 0 <= i < r ==> (#[trigger] data@[i])@.len() == cols,
                forall|i: int, j: int|
                    0 <= i < r && 0 <= j < cols ==> #[trigger] data@[i]@[j] == 0,
            decreases rows - r,
        {
            let mut row: Vec<isize> = Vec::new();
            let mut c: usize = 0;
            while c < cols
                invariant
                    0 <= c <= cols,
                    row@.len() == c,
                    forall|j: int| 0 <= j < c ==> #[trigger] row@[j] == 0,
                decreases cols - c,
            {
                row.push(0);
                c += 1;
            }
            data.push(row);
            r += 1;
        }
        Matrix { rows, cols, data }
    }

    /// The n-by-n identity matrix.
    pub fn identity(n: usize) -> (m: Self)
        ensures
            m.wf(),
            m.nrows() == n,
            m.ncols() == n,
            forall|r: int, c: int|
                0 <= r < n && 0 <= c < n ==> #[trigger] m.at(r, c) == (if r == c {
                    1int
                } else {
                    0int
                }),
    {
        let mut data: Vec<Vec<isize>> = Vec::new();
        let mut r: usize = 0;
        while r < n
            invariant
                0 <= r <= n,
                data@.len() == r,
                forall|i: int| 0 <= i < r ==> (#[trigger] data@[i])@.len() == n,
                forall|i: int, j: int|
                    0 <= i < r && 0 <= j < n ==> #[trigger] data@[i]@[j] as int == (if i == j {
                        1int
                    } else {
                        0int
                    }),
            decreases n - r,
        {
            let mut row: Vec<isize> = Vec::new();
            let mut c: usize = 0;
            while c < n
                invariant
                    0 <= c <= n,
                    row@.len() == c,
                    forall|j: int|
                        0 <= j < c ==> #[trigger] row@[j] as int == (if r == j {
                            1int
                        } else {
                            0int
                        }),
                decreases n - c,
            {
                if c == r {
                    row.push(1);
                } else {
                    row.push(0);
                }
                c += 1;
            }
            data.push(row);
            r += 1;
        }
        Matrix { rows: n, cols: n, data }
    }

    /// The componentwise sum. The dimensions must agree; mismatch is a
    /// contract violation.
    pub fn add(&self, other: &Matrix) -> (m: Matrix)
        requires
            self.wf(),
            other.wf(),
            self.nrows() == other.nrows(),
            self.ncols() == other.ncols(),
            forall|r: int, c: int|
                0 <= r < self.nrows() && 0 <= c < self.ncols() ==> isize::MIN <= #[trigger] self.at(
                    r,
                    c,
                ) + other.at(r, c) <= isize::MAX,
        ensures
            m.wf(),
            m.nrows() == self.nrows(),
            m.ncols() == self.ncols(),
            forall|r: int, c: int|
                0 <= r < self.nrows() && 0 <= c < self.ncols() ==> #[trigger] m.at(r, c) == self.at(
                    r,
                    c,
                ) + other.at(r, c),
    {
        let rows = self.rows;
        let cols = self.cols;
        let mut data: Vec<Vec<isize>> = Vec::new();
        let mut r: usize = 0;
        while r < rows
            invariant
                self.wf(),
                other.wf(),
                rows == self.nrows(),
                cols == self.ncols(),
                other.nrows() == rows,
                other.ncols() == cols,
                forall|i: int, j: int|
                    0 <= i < rows && 0 <= j < cols ==> isize::MIN <= #[trigger] self.at(i, j)
                        + other.at(i, j) <= isize::MAX,
                0 <= r <= rows,
                data@.len() == r,
                forall|i: int| 0 <= i < r ==> (#[trigger] data@[i])@.len() == cols,
                forall|i: int, j: int|
                    0 <= i < r && 0 <= j < cols ==> #[trigger] data@[i]@[j] as int == self.at(
                        i,
                        j,
                    ) + other.at(i, j),
            decreases rows - r,
        {
            let mut row: Vec<isize> = Vec::new();
            let mut c: usize = 0;
            while c < cols
                invariant
                    self.wf(),
                    other.wf(),
                    rows == self.nrows(),
                    cols == self.ncols(),
                    other.nrows() == rows,
                    other.ncols() == cols,
                    forall|i: int, j: int|
                        0 <= i < rows && 0 <= j < cols ==> isize::MIN <= #[trigger] self.at(i, j)
                            + other.at(i, j) <= isize::MAX,
                    r < rows,
                    0 <= c <= cols,
                    row@.len() == c,
                    forall|j: int|
                        0 <= j < c ==> #[trigger] row@[j] as int == self.at(r as int, j) + other.at(
                            r as int,
                            j,
                        ),
                decreases cols - c,
            {
                proof {
                    assert(self.at(r as int, c as int) == self.data@[r as int]@[c as int]);
                    assert(other.at(r as int, c as int) == other.data@[r as int]@[c as int]);
                }
                row.push(self.data[r][c] + other.data[r][c]);
                c += 1;
            }
            data.push(row);
            r += 1;
        }
        Matrix { rows, cols, data }
    }

    /// The componentwise difference. The dimensions must agree;
    /// mismatch is a contract violation.
    pub fn sub(&self, other: &Matrix) -> (m: Matrix)
        requires
            self.wf(),
            other.wf(),
            self.nrows() == other.nrows(),
            self.ncols() == other.ncols(),
            forall|r: int, c: int|
                0 <= r < self.nrows() && 0 <= c < self.ncols() ==> isize::MIN <= #[trigger] self.at(
                    r,
                    c,
                ) - other.at(r, c) <= isize::MAX,
        ensures
            m.wf(),
            m.nrows() == self.nrows(),
            m.ncols() == self.ncols(),
            forall|r: int, c: int|
                0 <= r < self.nrows() && 0 <= c < self.ncols() ==> #[trigger] m.at(r, c) == self.at(
                    r,
                    c,
                ) - other.at(r, c),
    {
        let rows = self.rows;
        let cols = self.cols;
        let mut data: Vec<Vec<isize>> = Vec::new();
        let mut r: usize = 0;
        while r < rows
            invariant
                self.wf(),
                other.wf(),
                rows == self.nrows(),
                cols == self.ncols(),
                other.nrows() == rows,
                other.ncols() == cols,
                forall|i: int, j: int|
                    0 <= i < rows && 0 <= j < cols ==> isize::MIN <= #[trigger] self.at(i, j)
                        - other.at(i, j) <= isize::MAX,
                0 <= r <= rows,
                data@.len() == r,
                forall|i: int| 0 <= i < r ==> (#[trigger] data@[i])@.len() == cols,
                forall|i: int, j: int|
                    0 <= i < r && 0 <= j < cols ==> #[trigger] data@[i]@[j] as int == self.at(
                        i,
                        j,
                    ) - other.at(i, j),
            decreases rows - r,
        {
            let mut row: Vec<isize> = Vec::new();
            let mut c: usize = 0;
            while c < cols
                invariant
                    self.wf(),
                    other.wf(),
                    rows == self.nrows(),
                    cols == self.ncols(),
                    other.nrows() == rows,
                    other.ncols() == cols,
                    forall|i: int, j: int|
                        0 <= i < rows && 0 <= j < cols ==> isize::MIN <= #[trigger] self.at(i, j)
                            - other.at(i, j) <= isize::MAX,
                    r < rows,
                    0 <= c <= cols,
                    row@.len() == c,
                    forall|j: int|
                        0 <= j < c ==> #[trigger] row@[j] as int == self.at(r as int, j) - other.at(
                            r as int,
                            j,
                        ),
                decreases cols - c,
            {
                proof {
                    assert(self.at(r as int, c as int) == self.data@[r as int]@[c as int]);
                    assert(other.at(r as int, c as int) == other.data@[r as int]@[c as int]);
                }
                row.push(self.data[r][c] - other.data[r][c]);
                c += 1;
            }
            data.push(row);
            r += 1;
        }
        Matrix { rows, cols, data }
    }

    /// The matrix product. The inner dimensions must agree; mismatch is
    /// a contract violation. Every elementary product and every partial
    /// dot-product sum must be representable.
    pub fn mul(&self, other: &Matrix) -> (m: Matrix)
        requires
            self.wf(),
            other.wf(),
            self.ncols() == other.nrows(),
            forall|i: int, j: int, k: int|
                0 <= i < self.nrows() && 0 <= j < other.ncols() && 0 <= k < self.ncols()
                    ==> isize::MIN <= #[trigger] (self.at(i, k) * other.at(k, j)) <= isize::MAX,
            forall|i: int, j: int, k: int|
                0 <= i < self.nrows() && 0 <= j < other.ncols() && 0 <= k <= self.ncols()
                    ==> isize::MIN <= #[trigger] dot_prefix(*self, *other, i, j, k) <= isize::MAX,
        ensures
            m.wf(),
            m.nrows() == self.nrows(),
            m.ncols() == other.ncols(),
            forall|i: int, j: int|
                0 <= i < self.nrows() && 0 <= j < other.ncols() ==> #[trigger] m.at(i, j)
                    == dot_prefix(*self, *other, i, j, self.ncols()),
    {
        let rows = self.rows;
        let cols = other.cols;
        let inner = self.cols;
        let mut data: Vec<Vec<isize>> = Vec::new();
        let mut r: usize = 0;
        while r < rows
            invariant
                self.wf(),
                other.wf(),
                rows == self.nrows(),
                cols == other.ncols(),
                inner == self.ncols(),
                other.nrows() == inner,
                forall|i: int, j: int, k: int|
                    0 <= i < rows && 0 <= j < cols && 0 <= k < inner ==> isize::MIN <= #[trigger] (
                    self.at(i, k) * other.at(k, j)) <= isize::MAX,
                forall|i: int, j: int, k: int|
                    0 <= i < rows && 0 <= j < cols && 0 <= k <= inner ==> isize::MIN
                        <= #[trigger] dot_prefix(*self, *other, i, j, k) <= isize::MAX,
                0 <= r <= rows,
                data@.len() == r,
                forall|i: int| 0 <= i < r ==> (#[trigger] data@[i])@.len() == cols,
                forall|i: int, j: int|
                    0 <= i < r && 0 <= j < cols ==> #[trigger] data@[i]@[j] as int == dot_prefix(
                        *self,
                        *other,
                        i,
                        j,
                        inner as int,
                    ),
            decreases rows - r,
        {
            let mut row: Vec<isize> = Vec::new();
            let mut c: usize = 0;
            while c < cols
                invariant
                    self.wf(),
                    other.wf(),
                    rows == self.nrows(),
                    cols == other.ncols(),
                    inner == self.ncols(),
                    other.nrows() == inner,
                    forall|i: int, j: int, k: int|
                        0 <= i < rows && 0 <= j < cols && 0 <= k < inner ==> isize::MIN
                            <= #[trigger] (self.at(i, k) * other.at(k, j)) <= isize::MAX,
                    forall|i: int, j: int, k: int|
                        0 <= i < rows && 0 <= j < cols && 0 <= k <= inner ==> isize::MIN
                            <= #[trigger] dot_prefix(*self, *other, i, j, k) <= isize::MAX,
                    r < rows,
                    0 <= c <= cols,
                    row@.len() == c,
                    forall|j: int|
                        0 <= j < c ==> #[trigger] row@[j] as int == dot_prefix(
                            *self,
                            *other,
                            r as int,
                            j,
                            inner as int,
                        ),
                decreases cols - c,
            {
                let mut acc: isize = 0;
                let mut k: usize = 0;
                while k < inner
                    invariant
                        self.wf(),
                        other.wf(),
                        rows == self.nrows(),
                        cols == other.ncols(),
                        inner == self.ncols(),
                        other.nrows() == inner,
                        forall|i: int, j: int, k2: int|
                            0 <= i < rows && 0 <= j < cols && 0 <= k2 < inner ==> isize::MIN
                                <= #[trigger] (self.at(i, k2) * other.at(k2, j)) <= isize::MAX,
                        forall|i: int, j: int, k2: int|
                            0 <= i < rows && 0 <= j < cols && 0 <= k2 <= inner ==> isize::MIN
                                <= #[trigger] dot_prefix(*self, *other, i, j, k2) <= isize::MAX,
                        r < rows,
                        c < cols,
                        0 <= k <= inner,
                        acc as int == dot_prefix(*self, *other, r as int, c as int, k as int),
                    decreases inner - k,
                {
                    proof {
                        assert(self.at(r as int, k as int) == self.data@[r as int]@[k as int]);
                        assert(other.at(k as int, c as int) == other.data@[k as int]@[c as int]);
                        assert(dot_prefix(*self, *other, r as int, c as int, k + 1) == dot_prefix(
                            *self,
                            *other,
                            r as int,
                            c as int,
                            k as int,
                        ) + self.at(r as int, k as int) * other.at(k as int, c as int));
                    }
                    acc = acc + self.data[r][k] * other.data[k][c];
                    k += 1;
                }
                row.push(acc);
                c += 1;
            }
            data.push(row);
            r += 1;
        }
        Matrix { rows, cols, data }
    }

    /// The transpose: entry (r, c) of the result is entry (c, r) of
    /// `self`.
    pub fn transpose(&self) -> (m: Matrix)
        requires
            self.wf(),
        ensures
            m.wf(),
            m.nrows() == self.ncols(),
            m.ncols() == self.nrows(),
            forall|r: int, c: int|
                0 <= r < self.ncols() && 0 <= c < self.nrows() ==> #[trigger] m.at(r, c) == self.at(
                    c,
                    r,
                ),
    {
        let rows = self.cols;
        let cols = self.rows;
        let mut data: Vec<Vec<isize>> = Vec::new();
        let mut r: usize = 0;
        while r < rows
            invariant
                self.wf(),
                rows == self.ncols(),
                cols == self.nrows(),
                0 <= r <= rows,
                data@.len() == r,
                forall|i: int| 0 <= i < r ==> (#[trigger] data@[i])@.len() == cols,
                forall|i: int, j: int|
                    0 <= i < r && 0 <= j < cols ==> #[trigger] data@[i]@[j] as int == self.at(
                        j,
                        i,
                    ),
            decreases rows - r,
        {
            let mut row: Vec<isize> = Vec::new();
            let mut c: usize = 0;
            while c < cols
                invariant
                    self.wf(),
                    rows == self.ncols(),
                    cols == self.nrows(),
                    r < rows,
                    0 <= c <= cols,
                    row@.len() == c,
                    forall|j: int| 0 <= j < c ==> #[trigger] row@[j] as int == self.at(j, r as int),
                decreases cols - c,
            {
                row.push(self.data[c][r]);
                c += 1;
            }
            data.push(row);
            r += 1;
        }
        Matrix { rows, cols, data }
    }

    /// The number of rows, executably.
    pub fn row_count(&self) -> (r: usize)
        ensures
            r == self.nrows(),
    {
        self.rows
    }

    /// The number of columns, executably.
    pub fn col_count(&self) -> (c: usize)
        ensures
            c == self.ncols(),
    {
        self.cols
    }

    /// The entry at (r, c), executably.
    pub fn entry(&self, r: usize, c: usize) -> (v: isize)
        requires
            self.wf(),
            r < self.nrows(),
            c < self.ncols(),
        ensures
            v == self.at(r as int, c as int),
    {
        self.data[r][c]
    }
}

} // verus!

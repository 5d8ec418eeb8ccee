use vstd::prelude::*;
use vstd::pervasive::unreached;

verus! {

/// Bit pattern of the IEEE-754 double 0.0: the weight of every matrix cell
/// that nothing has written.
pub const ZERO_BITS: u64 = 0;

/// Bit pattern of the IEEE-754 double -0.0, the other encoding of zero.
pub const NEG_ZERO_BITS: u64 = 0x8000_0000_0000_0000;

/// Bit pattern of the IEEE-754 double 1.0, the diagonal of an identity matrix.
pub const ONE_BITS: u64 = 0x3FF0_0000_0000_0000;

/// `w` encodes the real number zero (either signed zero).
pub open spec fn zero_bits(w: u64) -> bool {
    w == ZERO_BITS || w == NEG_ZERO_BITS
}

/// A dense real matrix held as raw IEEE-754 double bit patterns, row-major.
/// The verified code arranges, copies and compares cells; every arithmetic
/// step on the encoded reals is handed to an outside calculator, which reads
/// and writes the same bit patterns.
#[derive(Clone, Debug)]
pub struct WMatrix {
    pub rows: usize,
    pub cols: usize,
    pub data: Vec<u64>,
}

proof fn lemma_flat_index(rows: int, cols: int, r: int, c: int)
    by (nonlinear_arith)
    requires
        0 <= r < rows,
        0 <= c < cols,
    ensures
        0 <= r * cols + c < rows * cols,
{
}

proof fn lemma_flat_index_injective(cols: int, r1: int, c1: int, r2: int, c2: int)
    by (nonlinear_arith)
    requires
        0 <= c1 < cols,
        0 <= c2 < cols,
        0 <= r1,
        0 <= r2,
        r1 != r2 || c1 != c2,
    ensures
        r1 * cols + c1 != r2 * cols + c2,
{
}

impl WMatrix {
    /// The storage holds exactly one cell for every row/column pair.
    pub open spec fn wf(self) -> bool {
        self.data@.len() == self.rows * self.cols
    }

    pub open spec fn nrows(self) -> nat {
        self.rows as nat
    }

    pub open spec fn ncols(self) -> nat {
        self.cols as nat
    }

    /// The bit pattern stored at row `r`, column `c`.
    pub open spec fn ent(self, r: int, c: int) -> u64 {
        self.data@[r * self.cols + c]
    }

    /// Both dimensions agree with the given ones.
    pub open spec fn shape(self, rows: nat, cols: nat) -> bool {
        self.nrows() == rows && self.ncols() == cols
    }

    /// Every cell of the two matrices holds the same bit pattern.
    pub open spec fn same_bits(self, other: WMatrix) -> bool {
        &&& self.nrows() == other.nrows()
        &&& self.ncols() == other.ncols()
        &&& forall|r: int, c: int|
            0 <= r < self.nrows() && 0 <= c < self.ncols() ==> self.ent(r, c) == other.ent(r, c)
    }

    /// Every cell encodes a real zero.
    pub open spec fn all_zero(self) -> bool {
        forall|r: int, c: int|
            0 <= r < self.nrows() && 0 <= c < self.ncols() ==> zero_bits(self.ent(r, c))
    }

    /// Every cell of row `r` encodes a real zero.
    pub open spec fn row_zero(self, r: int) -> bool {
        forall|c: int| 0 <= c < self.ncols() ==> zero_bits(self.ent(r, c))
    }

    pub fn rows(&self) -> (r: usize)
        ensures
            r == self.nrows(),
    {
        self.rows
    }

    pub fn cols(&self) -> (r: usize)
        ensures
            r == self.ncols(),
    {
        self.cols
    }

    /// The all-zero matrix of the given shape; `None` when one row of cells
    /// alone would overflow the address space.
    pub fn zeros(rows: usize, cols: usize) -> (r: Option<WMatrix>)
        ensures
            match r {
                Some(m) => {
                    &&& m.wf()
                    &&& m.shape(rows as nat, cols as nat)
                    &&& m.all_zero()
                    &&& rows * cols <= usize::MAX
                    &&& forall|i: int, j: int|
                        0 <= i < rows && 0 <= j < cols ==> m.ent(i, j) == ZERO_BITS
                },
                None => rows * cols > usize::MAX,
            },
    {
        match rows.checked_mul(cols) {
            None => None,
            Some(len) => {
                let data = vec![ZERO_BITS; len];
                let m = WMatrix { rows, cols, data };
                proof {
                    assert forall|i: int, j: int|
                        0 <= i < rows && 0 <= j < cols implies m.ent(i, j) == ZERO_BITS by {
                        lemma_flat_index(rows as int, cols as int, i, j);
                    }
                }
                Some(m)
            },
        }
    }

    pub fn get(&self, r: usize, c: usize) -> (w: u64)
        requires
            self.wf(),
            r < self.nrows(),
            c < self.ncols(),
        ensures
            w == self.ent(r as int, c as int),
    {
        let _len = self.data.len();
        proof {
            lemma_flat_index(self.rows as int, self.cols as int, r as int, c as int);
        }
        self.data[r * self.cols + c]
    }

    pub fn set(&mut self, r: usize, c: usize, w: u64)
        requires
            old(self).wf(),
            r < old(self).nrows(),
            c < old(self).ncols(),
        ensures
            final(self).wf(),
            final(self).nrows() == old(self).nrows(),
            final(self).ncols() == old(self).ncols(),
            final(self).ent(r as int, c as int) == w,
            forall|i: int, j: int|
                0 <= i < old(self).nrows() && 0 <= j < old(self).ncols() && (i != r || j != c)
                    ==> final(self).ent(i, j) == old(self).ent(i, j),
    {
        let _len = self.data.len();
        proof {
            lemma_flat_index(self.rows as int, self.cols as int, r as int, c as int);
        }
        self.data[r * self.cols + c] = w;
        proof {
            assert forall|i: int, j: int|
                0 <= i < old(self).nrows() && 0 <= j < old(self).ncols() && (i != r || j != c)
                    implies final(self).ent(i, j) == old(self).ent(i, j) by {
                lemma_flat_index(self.rows as int, self.cols as int, i, j);
                lemma_flat_index_injective(self.cols as int, i, j, r as int, c as int);
            }
        }
    }

    /// A cell-for-cell copy.
    pub fn duplicate(&self) -> (r: WMatrix)
        requires
            self.wf(),
        ensures
            r.wf(),
            r.same_bits(*self),
            r.shape(self.nrows(), self.ncols()),
    {
        let mut data: Vec<u64> = Vec::new();
        let mut i: usize = 0;
        while i < self.data.len()
            invariant
                0 <= i <= self.data@.len(),
                data@ =~= self.data@.subrange(0, i as int),
            decreases self.data@.len() - i,
        {
            let w = self.data[i];
            data.push(w);
            i = i + 1;
        }
        proof {
            assert(data@ =~= self.data@);
        }
        WMatrix { rows: self.rows, cols: self.cols, data }
    }

    /// Row `r` as a 1-row matrix.
    pub fn row(&self, r: usize) -> (m: WMatrix)
        requires
            self.wf(),
            r < self.nrows(),
        ensures
            m.wf(),
            m.shape(1, self.ncols()),
            forall|c: int| 0 <= c < self.ncols() ==> m.ent(0, c) == self.ent(r as int, c),
    {
        let mut data: Vec<u64> = Vec::new();
        let mut c: usize = 0;
        while c < self.cols
            invariant
                self.wf(),
                r < self.nrows(),
                0 <= c <= self.cols,
                data@.len() == c,
                forall|j: int| 0 <= j < c ==> data@[j] == self.ent(r as int, j),
            decreases self.cols - c,
        {
            let w = self.get(r, c);
            data.push(w);
            c = c + 1;
        }
        let m = WMatrix { rows: 1, cols: self.cols, data };
        proof {
            assert forall|j: int| 0 <= j < self.ncols() implies m.ent(0, j) == self.ent(
                r as int,
                j,
            ) by {
                assert(m.ent(0, j) == m.data@[j]);
            }
        }
        m
    }

    /// A copy with row `j` replaced by the single row of `row`.
    pub fn with_row(&self, j: usize, row: &WMatrix) -> (m: WMatrix)
        requires
            self.wf(),
            row.wf(),
            j < self.nrows(),
            row.nrows() == 1,
            row.ncols() == self.ncols(),
        ensures
            m.wf(),
            m.shape(self.nrows(), self.ncols()),
            forall|c: int| 0 <= c < self.ncols() ==> m.ent(j as int, c) == row.ent(0, c),
            forall|i: int, c: int|
                0 <= i < self.nrows() && 0 <= c < self.ncols() && i != j ==> m.ent(i, c)
                    == self.ent(i, c),
    {
        let mut m = self.duplicate();
        let mut c: usize = 0;
        while c < self.cols
            invariant
                self.wf(),
                row.wf(),
                m.wf(),
                j < self.nrows(),
                row.nrows() == 1,
                row.ncols() == self.ncols(),
                m.shape(self.nrows(), self.ncols()),
                0 <= c <= self.cols,
                forall|k: int| 0 <= k < c ==> m.ent(j as int, k) == row.ent(0, k),
                forall|i: int, k: int|
                    0 <= i < self.nrows() && 0 <= k < self.ncols() && i != j ==> m.ent(i, k)
                        == self.ent(i, k),
                forall|k: int| c <= k < self.ncols() ==> m.ent(j as int, k) == self.ent(j as int, k),
            decreases self.cols - c,
        {
            let w = row.get(0, c);
            m.set(j, c, w);
            c = c + 1;
        }
        m
    }

    /// A copy with column `j` replaced by the single column of `col`.
    pub fn with_col(&self, j: usize, col: &WMatrix) -> (m: WMatrix)
        requires
            self.wf(),
            col.wf(),
            j < self.ncols(),
            col.ncols() == 1,
            col.nrows() == self.nrows(),
        ensures
            m.wf(),
            m.shape(self.nrows(), self.ncols()),
            forall|r: int| 0 <= r < self.nrows() ==> m.ent(r, j as int) == col.ent(r, 0),
            forall|r: int, c: int|
                0 <= r < self.nrows() && 0 <= c < self.ncols() && c != j ==> m.ent(r, c)
                    == self.ent(r, c),
    {
        let mut m = self.duplicate();
        let mut r: usize = 0;
        while r < self.rows
            invariant
                self.wf(),
                col.wf(),
                m.wf(),
                j < self.ncols(),
                col.ncols() == 1,
                col.nrows() == self.nrows(),
                m.shape(self.nrows(), self.ncols()),
                0 <= r <= self.rows,
                forall|k: int| 0 <= k < r ==> m.ent(k, j as int) == col.ent(k, 0),
                forall|i: int, c: int|
                    0 <= i < self.nrows() && 0 <= c < self.ncols() && c != j ==> m.ent(i, c)
                        == self.ent(i, c),
                forall|k: int| r <= k < self.nrows() ==> m.ent(k, j as int) == self.ent(k, j as int),
            decreases self.rows - r,
        {
            let w = col.get(r, 0);
            m.set(r, j, w);
            r = r + 1;
        }
        m
    }

    /// A copy with the single row of `row` appended at the bottom.
    pub fn append_row(&self, row: &WMatrix) -> (m: WMatrix)
        requires
            self.wf(),
            row.wf(),
            row.nrows() == 1,
            row.ncols() == self.ncols(),
            (self.nrows() + 1) * self.ncols() <= usize::MAX,
            self.nrows() + 1 <= usize::MAX,
        ensures
            m.wf(),
            m.shape(self.nrows() + 1, self.ncols()),
            forall|c: int| 0 <= c < self.ncols() ==> m.ent(self.nrows() as int, c) == row.ent(0, c),
            forall|i: int, c: int|
                0 <= i < self.nrows() && 0 <= c < self.ncols() ==> m.ent(i, c) == self.ent(i, c),
    {
        let mut data: Vec<u64> = Vec::new();
        let mut i: usize = 0;
        while i < self.data.len()
            invariant
                0 <= i <= self.data@.len(),
                data@ =~= self.data@.subrange(0, i as int),
            decreases self.data@.len() - i,
        {
            let w = self.data[i];
            data.push(w);
            i = i + 1;
        }
        proof {
            assert(data@ =~= self.data@);
        }
        let mut c: usize = 0;
        while c < self.cols
            invariant
                self.wf(),
                row.wf(),
                row.nrows() == 1,
                row.ncols() == self.ncols(),
                0 <= c <= self.cols,
                data@.len() == self.rows * self.cols + c,
                forall|i: int| 0 <= i < self.rows * self.cols ==> data@[i] == self.data@[i],
                forall|k: int| 0 <= k < c ==> data@[self.rows * self.cols + k] == row.ent(0, k),
            decreases self.cols - c,
        {
            let w = row.get(0, c);
            data.push(w);
            c = c + 1;
        }
        let m = WMatrix { rows: self.rows + 1, cols: self.cols, data };
        proof {
            assert((self.rows + 1) * self.cols == self.rows * self.cols + self.cols) by (
            nonlinear_arith);
            assert forall|i: int, c: int|
                0 <= i < self.nrows() && 0 <= c < self.ncols() implies m.ent(i, c) == self.ent(
                i,
                c,
            ) by {
                lemma_flat_index(self.rows as int, self.cols as int, i, c);
            }
            assert forall|c: int| 0 <= c < self.ncols() implies m.ent(self.nrows() as int, c)
                == row.ent(0, c) by {
                assert(m.ent(self.nrows() as int, c) == m.data@[self.rows * self.cols + c]);
            }
        }
        m
    }

    /// The transpose.
    pub fn transpose(&self) -> (m: WMatrix)
        requires
            self.wf(),
        ensures
            m.wf(),
            m.shape(self.ncols(), self.nrows()),
            forall|r: int, c: int|
                0 <= r < self.ncols() && 0 <= c < self.nrows() ==> m.ent(r, c) == self.ent(c, r),
    {
        let _len = self.data.len();
        let mut m = match Self::zeros(self.cols, self.rows) {
            Some(m) => m,
            None => {
                proof {
                    assert(self.cols * self.rows == self.rows * self.cols) by (nonlinear_arith);
                }
                unreached()
            },
        };
        let mut r: usize = 0;
        while r < self.cols
            invariant
                self.wf(),
                m.wf(),
                m.shape(self.ncols(), self.nrows()),
                0 <= r <= self.cols,
                forall|i: int, c: int|
                    0 <= i < r && 0 <= c < self.nrows() ==> m.ent(i, c) == self.ent(c, i),
            decreases self.cols - r,
        {
            let mut c: usize = 0;
            while c < self.rows
                invariant
                    self.wf(),
                    m.wf(),
                    m.shape(self.ncols(), self.nrows()),
                    0 <= r < self.cols,
                    0 <= c <= self.rows,
                    forall|i: int, k: int|
                        0 <= i < r && 0 <= k < self.nrows() ==> m.ent(i, k) == self.ent(k, i),
                    forall|k: int| 0 <= k < c ==> m.ent(r as int, k) == self.ent(k, r as int),
                decreases self.rows - c,
            {
                let w = self.get(c, r);
                m.set(r, c, w);
                c = c + 1;
            }
            r = r + 1;
        }
        m
    }

    /// The identity matrix encoded in bits: 1.0 on the diagonal, 0.0 elsewhere.
    pub fn identity_bits(n: usize) -> (r: Option<WMatrix>)
        ensures
            match r {
                Some(m) => {
                    &&& m.wf()
                    &&& m.shape(n as nat, n as nat)
                    &&& forall|i: int, j: int|
                        0 <= i < n && 0 <= j < n ==> m.ent(i, j) == (if i == j {
                            ONE_BITS
                        } else {
                            ZERO_BITS
                        })
                },
                None => n * n > usize::MAX,
            },
    {
        let mut m = match Self::zeros(n, n) {
            Some(m) => m,
            None => {
                return None;
            },
        };
        let mut i: usize = 0;
        while i < n
            invariant
                m.wf(),
                m.shape(n as nat, n as nat),
                0 <= i <= n,
                forall|a: int, b: int|
                    0 <= a < n && 0 <= b < n ==> m.ent(a, b) == (if a == b && a < i {
                        ONE_BITS
                    } else {
                        ZERO_BITS
                    }),
            decreases n - i,
        {
            m.set(i, i, ONE_BITS);
            i = i + 1;
        }
        Some(m)
    }

    /// Cell-for-cell equality of the encoded weights: bit patterns agree, or
    /// both encode a real zero of either sign.
    pub open spec fn same_weights(self, other: WMatrix) -> bool {
        &&& self.nrows() == other.nrows()
        &&& self.ncols() == other.ncols()
        &&& forall|r: int, c: int|
            0 <= r < self.nrows() && 0 <= c < self.ncols() ==> (#[trigger] self.ent(r, c)
                == other.ent(r, c) || (zero_bits(self.ent(r, c)) && zero_bits(other.ent(r, c))))
    }

    /// Cell-for-cell comparison of the encoded weights, the two signed zeros
    /// taken as equal.
    pub fn weights_eq(&self, other: &WMatrix) -> (r: bool)
        requires
            self.wf(),
            other.wf(),
        ensures
            r == self.same_weights(*other),
    {
        if self.rows != other.rows || self.cols != other.cols {
            return false;
        }
        let mut i: usize = 0;
        while i < self.rows
            invariant
                self.wf(),
                other.wf(),
                self.nrows() == other.nrows(),
                self.ncols() == other.ncols(),
                0 <= i <= self.rows,
                forall|r: int, c: int|
                    0 <= r < i && 0 <= c < self.ncols() ==> (#[trigger] self.ent(r, c) == other.ent(
                        r,
                        c,
                    ) || (zero_bits(self.ent(r, c)) && zero_bits(other.ent(r, c)))),
            decreases self.rows - i,
        {
            let mut j: usize = 0;
            while j < self.cols
                invariant
                    self.wf(),
                    other.wf(),
                    self.nrows() == other.nrows(),
                    self.ncols() == other.ncols(),
                    0 <= i < self.rows,
                    0 <= j <= self.cols,
                    forall|r: int, c: int|
                        0 <= r < i && 0 <= c < self.ncols() ==> (#[trigger] self.ent(r, c)
                            == other.ent(r, c) || (zero_bits(self.ent(r, c)) && zero_bits(
                            other.ent(r, c),
                        ))),
                    forall|c: int|
                        0 <= c < j ==> (#[trigger] self.ent(i as int, c) == other.ent(i as int, c)
                            || (zero_bits(self.ent(i as int, c)) && zero_bits(
                            other.ent(i as int, c),
                        ))),
                decreases self.cols - j,
            {
                let a = self.get(i, j);
                let b = other.get(i, j);
                let both_zero = (a == ZERO_BITS || a == NEG_ZERO_BITS) && (b == ZERO_BITS || b
                    == NEG_ZERO_BITS);
                if a != b && !both_zero {
                    return false;
                }
                j = j + 1;
            }
            i = i + 1;
        }
        true
    }

    /// Cell-for-cell equality of the stored bit patterns.
    pub fn bits_eq(&self, other: &WMatrix) -> (r: bool)
        requires
            self.wf(),
            other.wf(),
        ensures
            r == self.same_bits(*other),
    {
        if self.rows != other.rows || self.cols != other.cols {
            return false;
        }
        let mut i: usize = 0;
        while i < self.rows
            invariant
                self.wf(),
                other.wf(),
                self.nrows() == other.nrows(),
                self.ncols() == other.ncols(),
                0 <= i <= self.rows,
                forall|r: int, c: int|
                    0 <= r < i && 0 <= c < self.ncols() ==> self.ent(r, c) == other.ent(r, c),
            decreases self.rows - i,
        {
            let mut j: usize = 0;
            while j < self.cols
                invariant
                    self.wf(),
                    other.wf(),
                    self.nrows() == other.nrows(),
                    self.ncols() == other.ncols(),
                    0 <= i < self.rows,
                    0 <= j <= self.cols,
                    forall|r: int, c: int|
                        0 <= r < i && 0 <= c < self.ncols() ==> self.ent(r, c) == other.ent(r, c),
                    forall|c: int| 0 <= c < j ==> self.ent(i as int, c) == other.ent(i as int, c),
                decreases self.cols - j,
            {
                if self.get(i, j) != other.get(i, j) {
                    return false;
                }
                j = j + 1;
            }
            i = i + 1;
        }
        true
    }

    /// Does every cell of row `r` encode a real zero?
    pub fn row_is_zero(&self, r: usize) -> (z: bool)
        requires
            self.wf(),
            r < self.nrows(),
        ensures
            z == self.row_zero(r as int),
    {
        let mut c: usize = 0;
        while c < self.cols
            invariant
                self.wf(),
                r < self.nrows(),
                0 <= c <= self.cols,
                forall|k: int| 0 <= k < c ==> zero_bits(self.ent(r as int, k)),
            decreases self.cols - c,
        {
            let w = self.get(r, c);
            if w != ZERO_BITS && w != NEG_ZERO_BITS {
                return false;
            }
            c = c + 1;
        }
        true
    }

    /// Does every cell encode a real zero?
    pub fn is_zero(&self) -> (z: bool)
        requires
            self.wf(),
        ensures
            z == self.all_zero(),
    {
        let mut r: usize = 0;
        while r < self.rows
            invariant
                self.wf(),
                0 <= r <= self.rows,
                forall|i: int, c: int|
                    0 <= i < r && 0 <= c < self.ncols() ==> zero_bits(self.ent(i, c)),
            decreases self.rows - r,
        {
            if !self.row_is_zero(r) {
                return false;
            }
            r = r + 1;
        }
        true
    }
}


/// The positions of the rows of `m` up to row `k` that hold any nonzero
/// weight, in order.
pub open spec fn nonzero_rows_upto(m: WMatrix, k: int) -> Seq<int>
    decreases k,
{
    if k <= 0 {
        Seq::empty()
    } else if !m.row_zero(k - 1) {
        nonzero_rows_upto(m, k - 1).push(k - 1)
    } else {
        nonzero_rows_upto(m, k - 1)
    }
}

/// The positions of the rows of `m` that hold any nonzero weight, in order.
pub open spec fn nonzero_row_positions(m: WMatrix) -> Seq<int> {
    nonzero_rows_upto(m, m.nrows() as int)
}

} // verus!

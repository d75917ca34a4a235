use vstd::prelude::*;

use crate::matrix::Matrix;

verus! {

/// A logically symmetric `dimension` x `dimension` matrix that stores
/// only its upper triangle, packed into a rectangular matrix with
/// `ceil(dimension / 2)` rows and `dimension + 1` columns. Reads
/// normalise their position to row <= column, so a value written at an
/// upper-triangle position `(i, j)` is read back at both `(i, j)` and
/// `(j, i)`. Writes at lower-triangle positions are silently dropped:
/// they land in a scratch cell outside the matrix.
pub struct UpperTriangularMatrix<T> {
    dimension: usize,
    // number of rows of the packed representation
    number_rows: usize,
    data: Matrix<T>,
    // the pristine value handed out for dropped writes, and the scratch
    // cell such writes land in
    dummy_value: T,
    dummy_cell: T,
}

/// Number of rows of the packed representation for a given dimension.
pub open spec fn packed_rows(dim: int) -> int {
    dim / 2 + dim % 2
}

/// Packed row of the upper-triangle position `(a, b)`, for `a <= b`.
pub open spec fn packed_row(dim: int, a: int, b: int) -> int {
    if a < packed_rows(dim) {
        a
    } else {
        dim - 1 - a
    }
}

/// Packed column of the upper-triangle position `(a, b)`, for `a <= b`.
pub open spec fn packed_col(dim: int, a: int, b: int) -> int {
    if a < packed_rows(dim) {
        b + 1
    } else {
        dim - 1 - b
    }
}

/// The packed position of an upper-triangle position is in range.
pub proof fn lemma_packed_in_range(dim: int, a: int, b: int)
    requires
        0 <= a <= b < dim,
    ensures
        0 <= packed_row(dim, a, b) < packed_rows(dim),
        0 <= packed_col(dim, a, b) < dim + 1,
{
}

/// Distinct upper-triangle positions pack to distinct positions.
pub proof fn lemma_packed_injective(dim: int, a1: int, b1: int, a2: int, b2: int)
    requires
        0 <= a1 <= b1 < dim,
        0 <= a2 <= b2 < dim,
        packed_row(dim, a1, b1) == packed_row(dim, a2, b2),
        packed_col(dim, a1, b1) == packed_col(dim, a2, b2),
    ensures
        a1 == a2 && b1 == b2,
{
    let nr = packed_rows(dim);
    // in the first branch the column exceeds the row, in the second
    // branch it does not, so the two branches never collide
    if a1 < nr && a2 < nr {
    } else if a1 >= nr && a2 >= nr {
    } else if a1 < nr && a2 >= nr {
        assert(packed_col(dim, a1, b1) == b1 + 1 > a1);
        assert(packed_col(dim, a2, b2) == dim - 1 - b2 <= dim - 1 - a2);
    } else {
        assert(packed_col(dim, a2, b2) == b2 + 1 > a2);
        assert(packed_col(dim, a1, b1) == dim - 1 - b1 <= dim - 1 - a1);
    }
}

/// Holds when `(p, q)` names the same unordered position as `(i, j)`.
pub open spec fn same_position(i: int, j: int, p: int, q: int) -> bool {
    (p == i && q == j) || (p == j && q == i)
}

impl<T: Copy> UpperTriangularMatrix<T> {
    pub closed spec fn spec_dim(self) -> int {
        self.dimension as int
    }

    /// The value at position `(i, j)`, after normalising to row <= column.
    pub closed spec fn spec_at(self, i: int, j: int) -> T {
        let a = if i <= j {
            i
        } else {
            j
        };
        let b = if i <= j {
            j
        } else {
            i
        };
        self.data.spec_at(
            packed_row(self.dimension as int, a, b),
            packed_col(self.dimension as int, a, b),
        )
    }

    pub closed spec fn wf(self) -> bool {
        &&& self.data.wf()
        &&& self.number_rows == packed_rows(self.dimension as int)
        &&& self.data.spec_rows() == self.number_rows
        &&& self.data.spec_cols() == self.dimension + 1
        &&& self.dimension < usize::MAX
    }

    /// The value a dropped lower-triangle write reads before writing.
    pub closed spec fn spec_dummy(self) -> T {
        self.dummy_value
    }

    /// Creates a square upper triangular matrix with the given
    /// dimension, every position holding `initial`.
    pub fn new(dimension: usize, initial: T) -> (r: Self)
        requires
            dimension < usize::MAX,
            packed_rows(dimension as int) * (dimension + 1) <= usize::MAX,
        ensures
            r.wf(),
            r.spec_dim() == dimension,
            r.spec_dummy() == initial,
            forall|i: int, j: int|
                0 <= i < dimension && 0 <= j < dimension ==> #[trigger] r.spec_at(i, j)
                    == initial,
    {
        let number_rows = (dimension / 2) + (dimension % 2);
        let data = Matrix::new(number_rows, dimension + 1, initial);
        let r = Self { dimension, number_rows, data, dummy_value: initial, dummy_cell: initial };
        proof {
            assert forall|i: int, j: int|
                0 <= i < dimension && 0 <= j < dimension implies #[trigger] r.spec_at(
                i,
                j,
            ) == initial by {
                let a = if i <= j {
                    i
                } else {
                    j
                };
                let b = if i <= j {
                    j
                } else {
                    i
                };
                lemma_packed_in_range(dimension as int, a, b);
            }
        }
        r
    }

    /// The packed storage of a well-formed matrix fits in a machine word.
    pub proof fn lemma_capacity(self)
        requires
            self.wf(),
        ensures
            packed_rows(self.spec_dim()) * (self.spec_dim() + 1) <= usize::MAX,
            self.spec_dim() < usize::MAX,
    {
        self.data.lemma_capacity();
    }

    /// Returns the number of rows.
    pub fn num_rows(&self) -> (r: usize)
        ensures
            r == self.spec_dim(),
    {
        self.dimension
    }

    /// Returns the number of columns.
    pub fn num_cols(&self) -> (r: usize)
        ensures
            r == self.spec_dim(),
    {
        self.dimension
    }

    /// Returns a mutable reference to position `(i, j)`. At an
    /// upper-triangle position the matrix afterwards holds the
    /// reference's final value at `(i, j)` and `(j, i)` and is unchanged
    /// everywhere else; at a lower-triangle position the reference is a
    /// scratch cell and the write is silently dropped.
    pub fn at(&mut self, i: usize, j: usize) -> (r: &mut T)
        requires
            old(self).wf(),
            i < old(self).spec_dim(),
            j < old(self).spec_dim(),
        ensures
            final(self).wf(),
            final(self).spec_dim() == old(self).spec_dim(),
            final(self).spec_dummy() == old(self).spec_dummy(),
            i <= j ==> *r == old(self).spec_at(i as int, j as int) && (forall|
                p: int,
                q: int,
            |
                0 <= p < old(self).spec_dim() && 0 <= q < old(self).spec_dim()
                    ==> #[trigger] final(self).spec_at(p, q) == (if same_position(
                    i as int,
                    j as int,
                    p,
                    q,
                ) {
                    *final(r)
                } else {
                    old(self).spec_at(p, q)
                })),
            i > j ==> *r == old(self).spec_dummy() && (forall|p: int, q: int|
                0 <= p < old(self).spec_dim() && 0 <= q < old(self).spec_dim()
                    ==> #[trigger] final(self).spec_at(p, q) == old(self).spec_at(
                    p,
                    q,
                )),
    {
        if i > j {
            // a lower-triangle write must leave the matrix untouched
            self.dummy_cell = self.dummy_value;
            return &mut self.dummy_cell;
        }
        let (a, b) = (i, j);
        let ghost dim = self.dimension as int;
        proof {
            lemma_packed_in_range(dim, a as int, b as int);
            assert forall|p: int, q: int| 0 <= p < dim && 0 <= q < dim implies {
                let pa = if p <= q {
                    p
                } else {
                    q
                };
                let pb = if p <= q {
                    q
                } else {
                    p
                };
                (packed_row(dim, pa, pb) == packed_row(dim, a as int, b as int)
                    && packed_col(dim, pa, pb) == packed_col(dim, a as int, b as int))
                    <==> #[trigger] same_position(i as int, j as int, p, q)
            } by {
                let pa = if p <= q {
                    p
                } else {
                    q
                };
                let pb = if p <= q {
                    q
                } else {
                    p
                };
                lemma_packed_in_range(dim, pa, pb);
                if packed_row(dim, pa, pb) == packed_row(dim, a as int, b as int)
                    && packed_col(dim, pa, pb) == packed_col(dim, a as int, b as int) {
                    lemma_packed_injective(dim, pa, pb, a as int, b as int);
                }
            }
        }
        let row;
        let col;
        if a < self.number_rows {
            row = a;
            col = b + 1;
        } else {
            row = (self.dimension - 1) - a;
            col = (self.dimension - 1) - b;
        }
        self.data.at(row, col)
    }

    /// Returns a reference to position `(i, j)`, normalised so that
    /// `(i, j)` and `(j, i)` read the same cell.
    pub fn const_at(&self, i: usize, j: usize) -> (r: &T)
        requires
            self.wf(),
            i < self.spec_dim(),
            j < self.spec_dim(),
        ensures
            *r == self.spec_at(i as int, j as int),
    {
        let (a, b) = if i <= j {
            (i, j)
        } else {
            (j, i)
        };
        proof {
            lemma_packed_in_range(self.dimension as int, a as int, b as int);
        }
        if a < self.number_rows {
            self.data.const_at(a, b + 1)
        } else {
            self.data.const_at((self.dimension - 1) - a, (self.dimension - 1) - b)
        }
    }

    /// Reads at `(i, j)` and at `(j, i)` give the same value.
    pub proof fn lemma_symmetric(self, i: int, j: int)
        ensures
            self.spec_at(i, j) == self.spec_at(j, i),
    {
    }
}

} // verus!

use vstd::prelude::*;

verus! {

/// A rectangular matrix whose positions contain values of `T`, stored
/// row-major in a single vector.
pub struct Matrix<T> {
    num_rows: usize,
    num_cols: usize,
    data: Vec<T>,
}

impl<T: Copy> Matrix<T> {
    pub closed spec fn spec_rows(self) -> int {
        self.num_rows as int
    }

    pub closed spec fn spec_cols(self) -> int {
        self.num_cols as int
    }

    /// The value at position `(i, j)`.
    pub closed spec fn spec_at(self, i: int, j: int) -> T {
        self.data@[i * self.num_cols + j]
    }

    pub closed spec fn wf(self) -> bool {
        &&& self.data@.len() == self.num_rows * self.num_cols
        &&& self.num_rows * self.num_cols <= usize::MAX
    }

    /// Row-major positions are in range and distinct positions use
    /// distinct storage indices.
    proof fn lemma_index(cols: int, rows: int, i1: int, j1: int, i2: int, j2: int)
        requires
            0 <= i1 < rows,
            0 <= j1 < cols,
            0 <= i2 < rows,
            0 <= j2 < cols,
        ensures
            0 <= i1 * cols + j1 < rows * cols,
            i1 * cols + j1 == i2 * cols + j2 ==> (i1 == i2 && j1 == j2),
    {
        assert(0 <= i1 * cols + j1 < rows * cols) by (nonlinear_arith)
            requires
                0 <= i1 < rows,
                0 <= j1 < cols,
        ;
        assert(i1 * cols + j1 == i2 * cols + j2 ==> (i1 == i2 && j1 == j2))
            by (nonlinear_arith)
            requires
                0 <= i1 < rows,
                0 <= j1 < cols,
                0 <= i2 < rows,
                0 <= j2 < cols,
        ;
    }

    /// Creates a matrix with `num_rows` rows and `num_cols` columns,
    /// every position holding `initial`.
    pub fn new(num_rows: usize, num_cols: usize, initial: T) -> (r: Self)
        requires
            num_rows * num_cols <= usize::MAX,
        ensures
            r.wf(),
            r.spec_rows() == num_rows,
            r.spec_cols() == num_cols,
            forall|i: int, j: int|
                0 <= i < num_rows && 0 <= j < num_cols ==> #[trigger] r.spec_at(i, j)
                    == initial,
    {
        let n = num_rows * num_cols;
        let mut data: Vec<T> = Vec::new();
        let mut k: usize = 0;
        while k < n
            invariant
                k <= n,
                data@.len() == k,
                forall|i: int| 0 <= i < k ==> #[trigger] data@[i] == initial,
            decreases n - k,
        {
            data.push(initial);
            k = k + 1;
        }
        let r = Self { num_rows, num_cols, data };
        proof {
            assert forall|i: int, j: int|
                0 <= i < num_rows && 0 <= j < num_cols implies #[trigger] r.spec_at(i, j)
                == initial by {
                Self::lemma_index(num_cols as int, num_rows as int, i, j, i, j);
            }
        }
        r
    }

    /// Creates a square matrix.
    pub fn square(dimension: usize, initial: T) -> (r: Self)
        requires
            dimension * dimension <= usize::MAX,
        ensures
            r.wf(),
            r.spec_rows() == dimension,
            r.spec_cols() == dimension,
            forall|i: int, j: int|
                0 <= i < dimension && 0 <= j < dimension ==> #[trigger] r.spec_at(i, j)
                    == initial,
    {
        Self::new(dimension, dimension, initial)
    }

    /// The storage of a well-formed matrix fits in a machine word.
    pub proof fn lemma_capacity(self)
        requires
            self.wf(),
        ensures
            self.spec_rows() * self.spec_cols() <= usize::MAX,
    {
    }

    /// Returns the number of rows.
    pub fn num_rows(&self) -> (r: usize)
        ensures
            r == self.spec_rows(),
    {
        self.num_rows
    }

    /// Returns the number of columns.
    pub fn num_cols(&self) -> (r: usize)
        ensures
            r == self.spec_cols(),
    {
        self.num_cols
    }

    // calculates the storage index of position (i, j)
    fn index(&self, i: usize, j: usize) -> (r: usize)
        requires
            self.wf(),
            i < self.spec_rows(),
            j < self.spec_cols(),
        ensures
            r == i * self.spec_cols() + j,
            r < self.data@.len(),
    {
        proof {
            Self::lemma_index(
                self.num_cols as int,
                self.num_rows as int,
                i as int,
                j as int,
                i as int,
                j as int,
            );
        }
        self.num_cols * i + j
    }

    /// Returns a mutable reference to position `(i, j)`. Afterwards the
    /// matrix holds the reference's final value at `(i, j)` and is
    /// unchanged everywhere else.
    pub fn at(&mut self, i: usize, j: usize) -> (r: &mut T)
        requires
            old(self).wf(),
            i < old(self).spec_rows(),
            j < old(self).spec_cols(),
        ensures
            *r == old(self).spec_at(i as int, j as int),
            final(self).wf(),
            final(self).spec_rows() == old(self).spec_rows(),
            final(self).spec_cols() == old(self).spec_cols(),
            forall|p: int, q: int|
                0 <= p < old(self).spec_rows() && 0 <= q < old(self).spec_cols()
                    ==> #[trigger] final(self).spec_at(p, q) == (if p == i as int && q
                    == j as int {
                    *final(r)
                } else {
                    old(self).spec_at(p, q)
                }),
    {
        let position = self.index(i, j);
        let ghost rows = self.spec_rows();
        let ghost cols = self.spec_cols();
        proof {
            assert forall|p: int, q: int| 0 <= p < rows && 0 <= q < cols implies 0 <= p
                * cols + q < rows * cols && ((#[trigger] (p * cols + q) == i as int
                * cols + j as int) <==> (p == i as int && q == j as int)) by {
                Self::lemma_index(cols, rows, p, q, i as int, j as int);
            }
        }
        &mut self.data[position]
    }

    /// Returns a reference to position `(i, j)`.
    pub fn const_at(&self, i: usize, j: usize) -> (r: &T)
        requires
            self.wf(),
            i < self.spec_rows(),
            j < self.spec_cols(),
        ensures
            *r == self.spec_at(i as int, j as int),
    {
        let position = self.index(i, j);
        &self.data[position]
    }
}

} // verus!

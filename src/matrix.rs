use vstd::prelude::*;

verus! {

/// A dense `m` x `n` matrix stored row by row.
#[derive(Debug)]
pub struct Matrix<T> {
    m: usize,
    n: usize,
    inner: Vec<T>,
}

/// Offset of cell `(i, j)` in row-major storage with `n` columns.
pub open spec fn cell_index(n: int, i: int, j: int) -> int {
    i * n + j
}

/// A cell of an `m` x `n` matrix lies inside its `m * n` stored values.
pub proof fn lemma_cell_in_range(m: int, n: int, i: int, j: int)
    requires
        0 <= i < m,
        0 <= j < n,
    ensures
        0 <= cell_index(n, i, j) < m * n,
        cell_index(n, i, j) + n - j <= m * n,
{
    assert(i * n + n <= m * n) by (nonlinear_arith)
        requires
            0 <= i < m,
            0 <= n,
    ;
    assert(0 <= i * n) by (nonlinear_arith)
        requires
            0 <= i,
            0 <= n,
    ;
}

/// Distinct cells have distinct offsets.
proof fn lemma_cell_distinct(n: int, i: int, j: int, k: int, l: int)
    requires
        0 <= j < n,
        0 <= l < n,
        0 <= i,
        0 <= k,
        i != k || j != l,
    ensures
        cell_index(n, i, j) != cell_index(n, k, l),
{
    if i != k {
        if i < k {
            assert(i * n + n <= k * n) by (nonlinear_arith)
                requires
                    i < k,
                    0 <= n,
            ;
        } else {
            assert(k * n + n <= i * n) by (nonlinear_arith)
                requires
                    k < i,
                    0 <= n,
            ;
        }
    }
}

impl<T> Matrix<T> {
    #[verifier::type_invariant]
    spec fn well_formed(&self) -> bool {
        self.inner@.len() == self.m * self.n
    }

    /// Number of rows.
    pub closed spec fn rows(&self) -> nat {
        self.m as nat
    }

    /// Number of columns.
    pub closed spec fn cols(&self) -> nat {
        self.n as nat
    }

    /// The value in row `i`, column `j`.
    pub closed spec fn at(&self, i: int, j: int) -> T {
        self.inner@[cell_index(self.n as int, i, j)]
    }

    /// Rows and columns whose cells can all be addressed.
    pub open spec fn fits(&self) -> bool {
        self.rows() * self.cols() <= usize::MAX
    }
}

impl<T: Copy + Default> Matrix<T> {
    /// Create matrix with `m` rows and `n` columns, every cell holding the
    /// default value of `T`.
    pub fn new(m: usize, n: usize) -> (r: Self)
        requires
            m * n <= usize::MAX,
        ensures
            r.rows() == m,
            r.cols() == n,
            exists|d: T|
                call_ensures(T::default, (), d) && forall|i: int, j: int|
                    0 <= i < m && 0 <= j < n ==> #[trigger] r.at(i, j) == d,
    {
        let d = T::default();
        Self::new_with(m, n, d)
    }
}

impl<T: Copy> Matrix<T> {
    /// Create matrix with `m` rows and `n` columns with value `val`.
    pub fn new_with(m: usize, n: usize, val: T) -> (r: Self)
        requires
            m * n <= usize::MAX,
        ensures
            r.rows() == m,
            r.cols() == n,
            forall|i: int, j: int| 0 <= i < m && 0 <= j < n ==> r.at(i, j) == val,
    {
        let total = m * n;
        let mut inner: Vec<T> = Vec::with_capacity(total);
        for _k in 0..total
            invariant
                inner@.len() == _k,
                forall|c: int| 0 <= c < inner@.len() ==> inner@[c] == val,
        {
            inner.push(val);
        }
        let r = Self { m, n, inner };
        proof {
            assert forall|i: int, j: int| 0 <= i < m && 0 <= j < n implies r.at(i, j) == val by {
                lemma_cell_in_range(m as int, n as int, i, j);
            }
        }
        r
    }

    /// Create matrix with `m` rows and `n` columns from the first `m * n`
    /// values of `values`, row by row.
    pub fn new_iter(values: Vec<T>, m: usize, n: usize) -> (r: Self)
        requires
            m * n <= values@.len(),
        ensures
            r.rows() == m,
            r.cols() == n,
            forall|i: int, j: int|
                    0 <= i < m && 0 <= j < n ==> r.at(i, j) == values@[cell_index(
                    n as int,
                    i,
                    j,
                )],
    {
        let _len = values.len();
        let total = m * n;
        let mut inner: Vec<T> = Vec::with_capacity(total);
        for k in 0..total
            invariant
                total == m * n,
                total <= values@.len(),
                inner@ == values@.take(k as int),
        {
            inner.push(values[k]);
            assert(inner@ =~= values@.take(k as int + 1));
        }
        let r = Self { m, n, inner };
        proof {
            assert forall|i: int, j: int| 0 <= i < m && 0 <= j < n implies r.at(i, j) == values@[cell_index(n as int, i, j)] by {
                lemma_cell_in_range(m as int, n as int, i, j);
            }
        }
        r
    }

    /// Fill matrix with values provided with callback `f((i, j))`.
    pub fn fill<F: Fn((usize, usize)) -> T>(&mut self, f: F)
        requires
            forall|i: usize, j: usize|
                i < old(self).rows() && j < old(self).cols() ==> f.requires(((i, j),)),
        ensures
            final(self).rows() == old(self).rows(),
            final(self).cols() == old(self).cols(),
            forall|i: usize, j: usize|
                i < old(self).rows() && j < old(self).cols() ==> f.ensures(
                    ((i, j),),
                    final(self).at(i as int, j as int),
                ),
    {
        let m = self.num_rows();
        let n = self.num_cols();
        for i in 0..m
            invariant
                m == self.rows(),
                n == self.cols(),
                m == old(self).rows(),
                n == old(self).cols(),
                forall|a: usize, b: usize| a < m && b < n ==> f.requires(((a, b),)),
                forall|a: usize, b: usize| a < i && b < n ==> f.ensures(((a, b),), self.at(a as int, b as int)),
        {
            for j in 0..n
                invariant
                    i < m,
                    m == self.rows(),
                    n == self.cols(),
                    forall|a: usize, b: usize| a < m && b < n ==> f.requires(((a, b),)),
                    forall|a: usize, b: usize|
                        (a < i && b < n) || (a == i && b < j) ==> f.ensures(
                            ((a, b),),
                            self.at(a as int, b as int),
                        ),
            {
                let v = f((i, j));
                self.set(i, j, v);
            }
        }
    }

    /// Fill a square matrix from the callback `f((i, j))`, computed once for
    /// each cell below the diagonal and mirrored above it; the diagonal keeps
    /// its values.
    pub fn fill_diag<F: Fn((usize, usize)) -> T>(&mut self, f: F)
        requires
            old(self).rows() == old(self).cols(),
            forall|i: usize, j: usize| j < i < old(self).rows() ==> f.requires(((i, j),)),
        ensures
            final(self).rows() == old(self).rows(),
            final(self).cols() == old(self).cols(),
            forall|i: usize, j: usize|
                j < i < old(self).rows() ==> f.ensures(((i, j),), final(self).at(i as int, j as int)),
            forall|i: int, j: int|
                0 <= j < i < old(self).rows() ==> final(self).at(j, i) == final(self).at(i, j),
            forall|i: int|
                0 <= i < old(self).rows() ==> final(self).at(i, i) == old(self).at(i, i),
    {
        let n = self.num_rows();
        for i in 0..n
            invariant
                n == self.rows(),
                n == self.cols(),
                n == old(self).rows(),
                forall|a: usize, b: usize| b < a < n ==> f.requires(((a, b),)),
                forall|a: usize, b: usize| b < a < i ==> f.ensures(((a, b),), self.at(a as int, b as int)),
                forall|a: int, b: int| 0 <= b < a < i ==> self.at(b, a) == self.at(a, b),
                forall|a: int| 0 <= a < n ==> self.at(a, a) == old(self).at(a, a),
        {
            for j in 0..i
                invariant
                    i < n,
                    n == self.rows(),
                    n == self.cols(),
                    forall|a: usize, b: usize| b < a < n ==> f.requires(((a, b),)),
                    forall|a: usize, b: usize|
                        (b < a < i) || (a == i && b < j) ==> f.ensures(
                            ((a, b),),
                            self.at(a as int, b as int),
                        ),
                    forall|a: int, b: int|
                        (0 <= b < a < i) || (a == i && 0 <= b < j) ==> self.at(b, a) == self.at(a, b),
                    forall|a: int| 0 <= a < n ==> self.at(a, a) == old(self).at(a, a),
            {
                let v = f((i, j));
                self.set(i, j, v);
                self.set(j, i, v);
            }
        }
    }

    /// Returns the values of column `j`, top to bottom.
    pub fn column(&self, j: usize) -> (r: Vec<T>)
        requires
            j < self.cols(),
        ensures
            r@.len() == self.rows(),
            forall|i: int| 0 <= i < self.rows() ==> r@[i] == self.at(i, j as int),
    {
        let m = self.num_rows();
        let mut column: Vec<T> = Vec::new();
        for i in 0..m
            invariant
                m == self.rows(),
                j < self.cols(),
                column@.len() == i,
                forall|k: int| 0 <= k < i ==> column@[k] == self.at(k, j as int),
        {
            column.push(self.get(i, j));
        }
        column
    }

    /// Returns the `rows()` stored values that start at the head of row `i`,
    /// in row-major order; on a square matrix this is row `i`.
    pub fn row(&self, i: usize) -> (r: Vec<T>)
        requires
            i * self.cols() + self.rows() <= self.rows() * self.cols(),
        ensures
            r@.len() == self.rows(),
            forall|t: int| 0 <= t < self.rows() ==> r@[t] == self.at(i as int, t),
    {
        proof {
            use_type_invariant(self);
        }
        let _total = self.inner.len();
        let start = i * self.n;
        let m = self.m;
        let mut row: Vec<T> = Vec::new();
        for t in 0..m
            invariant
                start == i * self.cols(),
                m == self.rows(),
                start + m <= _total,
                _total == self.inner@.len(),
                self.inner@.len() == self.rows() * self.cols(),
                row@.len() == t,
                forall|k: int| 0 <= k < t ==> row@[k] == self.at(i as int, k),
        {
            row.push(self.inner[start + t]);
        }
        row
    }

    /// Number of rows.
    pub fn num_rows(&self) -> (r: usize)
        ensures
            r == self.rows(),
    {
        self.m
    }

    /// Number of columns.
    pub fn num_cols(&self) -> (r: usize)
        ensures
            r == self.cols(),
    {
        self.n
    }

    /// The value in row `i`, column `j`.
    pub fn get(&self, i: usize, j: usize) -> (r: T)
        requires
            i < self.rows(),
            j < self.cols(),
        ensures
            r == self.at(i as int, j as int),
    {
        proof {
            use_type_invariant(self);
            lemma_cell_in_range(self.m as int, self.n as int, i as int, j as int);
        }
        let _total = self.inner.len();
        self.inner[i * self.n + j]
    }

    /// Store `val` in row `i`, column `j`; every other cell keeps its value.
    pub fn set(&mut self, i: usize, j: usize, val: T)
        requires
            i < old(self).rows(),
            j < old(self).cols(),
        ensures
            final(self).rows() == old(self).rows(),
            final(self).cols() == old(self).cols(),
            final(self).at(i as int, j as int) == val,
            forall|k: int, l: int|
                0 <= k < old(self).rows() && 0 <= l < old(self).cols() && (k != i || l != j)
                    ==> final(self).at(k, l) == old(self).at(k, l),
    {
        proof {
            use_type_invariant(&*self);
            lemma_cell_in_range(self.m as int, self.n as int, i as int, j as int);
        }
        let _total = self.inner.len();
        let c = i * self.n + j;
        let mut taken = Matrix { m: 0, n: 0, inner: Vec::new() };
        std::mem::swap(self, &mut taken);
        let Matrix { m, n, mut inner } = taken;
        inner.set(c, val);
        *self = Matrix { m, n, inner };
        proof {
            assert forall|k: int, l: int|
                0 <= k < old(self).rows() && 0 <= l < old(self).cols() && (k != i || l != j)
                    implies self.at(k, l) == old(self).at(k, l) by {
                lemma_cell_distinct(self.n as int, i as int, j as int, k, l);
                lemma_cell_in_range(self.m as int, self.n as int, k, l);
            }
        }
    }
}

} // verus!

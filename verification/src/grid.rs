use vstd::prelude::*;

verus! {

/// A cell coordinate: (row, column).
pub type Point = (usize, usize);

/// An ordered sequence of cells, from a start cell to an exit cell.
pub type Path = Vec<Point>;

/// A two-dimensional matrix with `n` rows and `m` columns, backed by a single
/// flat vector in row-major order: the cell `(i, j)` lives at index `i*m + j`.
pub struct Matrix<T> {
    data: Vec<T>,
    n: usize,
    m: usize,
}

/// The flat index of `(i, j)` in a row-major matrix with `m` columns stays
/// inside the backing store of an `n` by `m` matrix.
pub proof fn lemma_flat_index(i: int, j: int, n: int, m: int)
    requires
        0 <= i < n,
        0 <= j < m,
    ensures
        0 <= i * m + j < n * m,
{
    assert(0 <= i * m + j < n * m) by (nonlinear_arith)
        requires
            0 <= i < n,
            0 <= j < m,
    ;
}

/// A flat index below `n * m` decomposes into an in-range row and column.
pub proof fn lemma_flat_unflat(t: int, n: int, m: int)
    requires
        0 < m,
        0 <= t < n * m,
    ensures
        0 <= t / m < n,
        0 <= t % m < m,
        (t / m) * m + (t % m) == t,
{
    vstd::arithmetic::div_mod::lemma_fundamental_div_mod(t, m);
    vstd::arithmetic::div_mod::lemma_mod_pos_bound(t, m);
    assert(t == m * (t / m) + t % m);
    assert((t / m) * m == m * (t / m)) by (nonlinear_arith);
    assert(0 <= t / m < n) by (nonlinear_arith)
        requires
            0 < m,
            0 <= t < n * m,
            t == (t / m) * m + (t % m),
            0 <= t % m < m,
    ;
}

/// Row-major flat indices of distinct in-range cells are distinct.
pub proof fn lemma_flat_index_injective(i1: int, j1: int, i2: int, j2: int, m: int)
    requires
        0 <= j1 < m,
        0 <= j2 < m,
        0 <= i1,
        0 <= i2,
        i1 * m + j1 == i2 * m + j2,
    ensures
        i1 == i2 && j1 == j2,
{
    assert(i1 == i2 && j1 == j2) by (nonlinear_arith)
        requires
            0 <= j1 < m,
            0 <= j2 < m,
            0 <= i1,
            0 <= i2,
            i1 * m + j1 == i2 * m + j2,
    ;
}

impl<T> Matrix<T> {
    /// Number of rows.
    pub closed spec fn rows(self) -> int {
        self.n as int
    }

    /// Number of columns.
    pub closed spec fn cols(self) -> int {
        self.m as int
    }

    /// The backing store holds exactly one element for every cell; the cell
    /// count fits the machine's address range.
    pub closed spec fn wf(self) -> bool {
        &&& self.data@.len() == self.rows() * self.cols()
        &&& self.rows() * self.cols() <= usize::MAX
        &&& 0 <= self.rows() <= usize::MAX
        &&& 0 <= self.cols() <= usize::MAX
    }

    /// The element stored at row `i`, column `j`.
    pub closed spec fn cell(self, i: int, j: int) -> T {
        self.data@[i * self.cols() + j]
    }

    /// The point lies inside the matrix.
    pub open spec fn in_bounds(self, p: Point) -> bool {
        p.0 < self.rows() && p.1 < self.cols()
    }

    /// The element stored at a point.
    pub open spec fn at(self, p: Point) -> T {
        self.cell(p.0 as int, p.1 as int)
    }

    /// The flat indices of the cells whose element satisfies `sel`.
    pub open spec fn marked_set(self, sel: spec_fn(T) -> bool) -> Set<int> {
        Set::new(
            |t: int|
                0 <= t < self.rows() * self.cols() && sel(
                    self.cell(t / self.cols(), t % self.cols()),
                ),
        )
    }

    pub fn n_rows(&self) -> (r: usize)
        ensures
            r == self.rows(),
    {
        self.n
    }

    pub fn n_cols(&self) -> (r: usize)
        ensures
            r == self.cols(),
    {
        self.m
    }

    /// Bounds-checked read of the cell at `point`. Reading outside the matrix
    /// is a caller error, ruled out by the precondition.
    pub fn get(&self, point: Point) -> (r: &T)
        requires
            self.wf(),
            self.in_bounds(point),
        ensures
            *r == self.cell(point.0 as int, point.1 as int),
    {
        let (i, j) = point;
        let total: usize = self.data.len();
        proof {
            lemma_flat_index(i as int, j as int, self.rows(), self.cols());
        }
        &self.data[i * self.m + j]
    }

    /// Bounds-checked write of the cell at `point`; every other cell and the
    /// dimensions are left as they were.
    pub fn set(&mut self, point: Point, value: T)
        requires
            old(self).wf(),
            old(self).in_bounds(point),
        ensures
            final(self).wf(),
            final(self).rows() == old(self).rows(),
            final(self).cols() == old(self).cols(),
            final(self).cell(point.0 as int, point.1 as int) == value,
            forall|i: int, j: int|
                0 <= i < old(self).rows() && 0 <= j < old(self).cols()
                    && !(i == point.0 && j == point.1)
                    ==> final(self).cell(i, j) == old(self).cell(i, j),
            final(self).at(point) == value,
            forall|q: Point|
                old(self).in_bounds(q) && q != point ==> final(self).at(q) == old(self).at(q),
    {
        let (i, j) = point;
        let total: usize = self.data.len();
        proof {
            lemma_flat_index(i as int, j as int, self.rows(), self.cols());
        }
        self.data.set(i * self.m + j, value);
        proof {
            assert forall|i2: int, j2: int|
                0 <= i2 < old(self).rows() && 0 <= j2 < old(self).cols()
                    && !(i2 == point.0 && j2 == point.1)
                    implies final(self).cell(i2, j2) == old(self).cell(i2, j2) by {
                lemma_flat_index(i2, j2, self.rows(), self.cols());
                if i2 * self.cols() + j2 == point.0 * self.cols() + point.1 {
                    lemma_flat_index_injective(
                        i2, j2, point.0 as int, point.1 as int, self.cols(),
                    );
                }
            }
        }
    }
}

impl<T: Default> Matrix<T> {
    /// A matrix with every cell set to `T`'s default value.
    pub fn new(n: usize, m: usize) -> (r: Self)
        requires
            n * m <= usize::MAX,
        ensures
            r.wf(),
            r.rows() == n,
            r.cols() == m,
            forall|i: int, j: int|
                0 <= i < n && 0 <= j < m
                    ==> call_ensures(T::default, (), #[trigger] r.cell(i, j)),
    {
        let total: usize = n * m;
        let mut data: Vec<T> = Vec::new();
        while data.len() < total
            invariant
                data.len() <= total,
                forall|k: int|
                    0 <= k < data.len() ==> call_ensures(T::default, (), #[trigger] data@[k]),
            decreases total - data.len(),
        {
            data.push(T::default());
        }
        let r = Matrix { data, n, m };
        proof {
            assert forall|i: int, j: int| 0 <= i < n && 0 <= j < m
                implies call_ensures(T::default, (), #[trigger] r.cell(i, j)) by {
                lemma_flat_index(i, j, n as int, m as int);
            }
        }
        r
    }
}

impl Matrix<usize> {
    /// A matrix with every cell set to zero, filled in bulk.
    pub fn zeros(n: usize, m: usize) -> (r: Self)
        requires
            n * m <= usize::MAX,
        ensures
            r.wf(),
            r.rows() == n,
            r.cols() == m,
            forall|i: int, j: int| 0 <= i < n && 0 <= j < m ==> #[trigger] r.cell(i, j) == 0,
    {
        let total: usize = n * m;
        let data: Vec<usize> = vec![0; total];
        let r = Matrix { data, n, m };
        proof {
            assert forall|i: int, j: int| 0 <= i < n && 0 <= j < m
                implies #[trigger] r.cell(i, j) == 0 by {
                lemma_flat_index(i, j, n as int, m as int);
            }
        }
        r
    }
}

impl Matrix<bool> {
    /// A matrix with every cell set to `true`, filled in bulk.
    pub fn walls(n: usize, m: usize) -> (r: Self)
        requires
            n * m <= usize::MAX,
        ensures
            r.wf(),
            r.rows() == n,
            r.cols() == m,
            forall|i: int, j: int| 0 <= i < n && 0 <= j < m ==> #[trigger] r.cell(i, j),
    {
        let total: usize = n * m;
        let data: Vec<bool> = vec![true; total];
        let r = Matrix { data, n, m };
        proof {
            assert forall|i: int, j: int| 0 <= i < n && 0 <= j < m
                implies #[trigger] r.cell(i, j) by {
                lemma_flat_index(i, j, n as int, m as int);
            }
        }
        r
    }
}

/// A well-formed matrix has nonnegative dimensions and a cell count that
/// fits the machine's address range.
pub broadcast proof fn lemma_wf_bounds<T>(mx: Matrix<T>)
    requires
        #[trigger] mx.wf(),
    ensures
        0 <= mx.rows() <= usize::MAX,
        0 <= mx.cols() <= usize::MAX,
        0 <= mx.rows() * mx.cols() <= usize::MAX,
{
}

/// The marked set of a well-formed matrix is a finite set of at most
/// `rows * cols` flat indices, and an in-bounds point belongs to it exactly
/// when its element satisfies the selector.
pub proof fn lemma_marked_set_props<T>(mx: Matrix<T>, sel: spec_fn(T) -> bool)
    requires
        mx.wf(),
    ensures
        mx.marked_set(sel).finite(),
        mx.marked_set(sel).len() <= mx.rows() * mx.cols(),
        forall|p: Point|
            mx.in_bounds(p)
                ==> (mx.marked_set(sel).contains(p.0 * mx.cols() + p.1) <==> sel(
                #[trigger] mx.at(p),
            )),
{
    let n = mx.rows();
    let m = mx.cols();
    vstd::set_lib::lemma_int_range(0, n * m);
    assert(mx.marked_set(sel).subset_of(vstd::set_lib::set_int_range(0, n * m)));
    vstd::set_lib::lemma_len_subset(mx.marked_set(sel), vstd::set_lib::set_int_range(0, n * m));
    assert forall|p: Point| mx.in_bounds(p) implies (mx.marked_set(sel).contains(
        p.0 * m + p.1,
    ) <==> sel(#[trigger] mx.at(p))) by {
        lemma_flat_index(p.0 as int, p.1 as int, n, m);
        vstd::arithmetic::div_mod::lemma_fundamental_div_mod_converse(
            p.0 * m + p.1,
            m,
            p.0 as int,
            p.1 as int,
        );
    }
}

/// How the marked set changes when a single cell is overwritten: it gains the
/// cell's flat index, loses it, or stays as it was, according to the
/// selector's verdict on the old and new element.
pub proof fn lemma_marked_set_update<T>(pre: Matrix<T>, post: Matrix<T>, p: Point, sel: spec_fn(T) -> bool)
    requires
        pre.wf(),
        post.wf(),
        post.rows() == pre.rows(),
        post.cols() == pre.cols(),
        pre.in_bounds(p),
        forall|i: int, j: int|
            0 <= i < pre.rows() && 0 <= j < pre.cols() && !(i == p.0 && j == p.1)
                ==> post.cell(i, j) == pre.cell(i, j),
    ensures
        sel(post.at(p)) && !sel(pre.at(p)) ==> post.marked_set(sel) == pre.marked_set(sel).insert(
            p.0 * pre.cols() + p.1,
        ),
        !sel(post.at(p)) && sel(pre.at(p)) ==> post.marked_set(sel) == pre.marked_set(sel).remove(
            p.0 * pre.cols() + p.1,
        ),
        sel(post.at(p)) == sel(pre.at(p)) ==> post.marked_set(sel) == pre.marked_set(sel),
{
    let n = pre.rows();
    let m = pre.cols();
    let f = p.0 * m + p.1;
    lemma_flat_index(p.0 as int, p.1 as int, n, m);
    vstd::arithmetic::div_mod::lemma_fundamental_div_mod_converse(f, m, p.0 as int, p.1 as int);
    assert forall|t: int| 0 <= t < n * m && t != f implies #[trigger] post.cell(t / m, t % m)
        == pre.cell(t / m, t % m) && (t / m != p.0 || t % m != p.1) by {
        lemma_flat_unflat(t, n, m);
    }
    if sel(post.at(p)) && !sel(pre.at(p)) {
        assert(post.marked_set(sel) =~= pre.marked_set(sel).insert(f));
    } else if !sel(post.at(p)) && sel(pre.at(p)) {
        assert(post.marked_set(sel) =~= pre.marked_set(sel).remove(f));
    } else {
        assert(post.marked_set(sel) =~= pre.marked_set(sel));
    }
}

} // verus!

use vstd::prelude::*;

use std::collections::VecDeque;

use crate::grid::{
    lemma_flat_index, lemma_marked_set_props, lemma_marked_set_update, Matrix, Path, Point,
};
use crate::neighbour::{
    adjacent, lemma_adjacent_nbr_index, lemma_nbr_opposite, nbr_col, nbr_row, Neighbours,
};

verus! {

broadcast use crate::grid::lemma_wf_bounds;

/// Selects visited cells in a solver's cost field.
pub open spec fn visited_sel() -> spec_fn(usize) -> bool {
    |c: usize| c != 0
}

/// From cell `p`, the `k`-th neighbour lies in bounds and carries a nonzero
/// cost strictly below `p`'s.
pub open spec fn cheaper_step(costs: Matrix<usize>, p: Point, k: int) -> bool {
    let i = nbr_row(p, k);
    let j = nbr_col(p, k);
    &&& 0 <= i < costs.rows()
    &&& 0 <= j < costs.cols()
    &&& 0 < costs.cell(i, j) < costs.at(p)
}

/// The `k`-th neighbour of `q` is settled: if it lies in bounds and is open
/// floor, it has been visited (its recorded cost is nonzero).
pub open spec fn nbr_settled(mz: Matrix<bool>, costs: Matrix<usize>, q: Point, k: int) -> bool {
    let i = nbr_row(q, k);
    let j = nbr_col(q, k);
    (0 <= i < costs.rows() && 0 <= j < costs.cols() && !mz.cell(i, j)) ==> costs.cell(i, j) != 0
}

/// The `k`-th neighbour of `q` is smooth: if it lies in bounds and is
/// visited, its recorded cost is at most one below `q`'s. Breadth-first
/// order assigns costs level by level, so this holds of every direction and
/// makes adjacent visited costs differ by at most one.
pub open spec fn nbr_smooth(costs: Matrix<usize>, q: Point, k: int) -> bool {
    let i = nbr_row(q, k);
    let j = nbr_col(q, k);
    (0 <= i < costs.rows() && 0 <= j < costs.cols() && costs.cell(i, j) != 0) ==> costs.cell(
        i,
        j,
    ) + 1 >= costs.at(q)
}

/// In a cost field whose visited region is closed under stepping to open
/// neighbours, every cell of a valid open path out of `start` is visited.
proof fn lemma_path_visited(
    mz: Matrix<bool>,
    costs: Matrix<usize>,
    start: Point,
    p: Seq<Point>,
    i: int,
)
    requires
        costs.rows() == mz.rows(),
        costs.cols() == mz.cols(),
        costs.in_bounds(start),
        costs.at(start) != 0,
        forall|q: Point, k: int|
            costs.in_bounds(q) && costs.at(q) != 0 && 0 <= k < 4 ==> #[trigger] nbr_settled(
                mz,
                costs,
                q,
                k,
            ),
        p.len() >= 1,
        p[0] == start,
        forall|t: int| 0 <= t < p.len() ==> mz.open_cell(#[trigger] p[t]),
        forall|t: int| 0 <= t < p.len() - 1 ==> adjacent(#[trigger] p[t], p[t + 1]),
        0 <= i < p.len(),
    ensures
        costs.in_bounds(p[i]),
        costs.at(p[i]) != 0,
    decreases i,
{
    assert(mz.open_cell(p[i]));
    if i > 0 {
        lemma_path_visited(mz, costs, start, p, i - 1);
        lemma_adjacent_nbr_index(p[i - 1], p[i]);
        let k = choose|k: int|
            0 <= k < 4 && p[i].0 == #[trigger] nbr_row(p[i - 1], k) && p[i].1 == nbr_col(
                p[i - 1],
                k,
            );
        assert(nbr_settled(mz, costs, p[i - 1], k));
    }
}

/// When the search has stopped on a discovered exit of cost `ce`, every
/// escape path that truly leaves the start is at least `ce` cells long. The
/// path is followed cell by cell: while it stays in the visited region its
/// costs grow by at most one per step, it can only leave the region through a
/// frontier cell of cost at least `ce - 1`, and a visited endpoint is itself
/// an exit of cost at least `ce`.
proof fn lemma_escape_at_least(
    mz: Matrix<bool>,
    costs: Matrix<usize>,
    qv: Seq<Point>,
    start: Point,
    ce: int,
    p2: Seq<Point>,
    t: int,
)
    requires
        costs.rows() == mz.rows(),
        costs.cols() == mz.cols(),
        forall|x: Point, k: int|
            costs.in_bounds(x) && costs.at(x) != 0 && !qv.contains(x) && 0 <= k < 4
                ==> #[trigger] nbr_settled(mz, costs, x, k),
        forall|i: int| 0 <= i < qv.len() ==> costs.at(#[trigger] qv[i]) + 1 >= ce,
        forall|x: Point|
            costs.in_bounds(x) && #[trigger] costs.at(x) != 0 && x != start && mz.exit_at(x)
                ==> costs.at(x) >= ce,
        forall|x: Point, k: int|
            costs.in_bounds(x) && costs.at(x) != 0 && 0 <= k < 4 ==> #[trigger] nbr_smooth(
                costs,
                x,
                k,
            ),
        p2.len() >= 1,
        p2[0] == start,
        forall|s: int| 0 <= s < p2.len() ==> mz.open_cell(#[trigger] p2[s]),
        forall|s: int| 0 <= s < p2.len() - 1 ==> adjacent(#[trigger] p2[s], p2[s + 1]),
        mz.exit_at(p2[p2.len() - 1]),
        p2[p2.len() - 1] != start,
        0 <= t < p2.len(),
        costs.in_bounds(p2[t]),
        costs.at(p2[t]) != 0,
        costs.at(p2[t]) <= t + 1,
    ensures
        p2.len() >= ce,
    decreases p2.len() - t,
{
    let ell = p2.len() as int;
    if t == ell - 1 {
        assert(costs.at(p2[t]) >= ce);
    } else {
        let nxt = p2[t + 1];
        lemma_adjacent_nbr_index(p2[t], nxt);
        let k = choose|k: int|
            0 <= k < 4 && nxt.0 == #[trigger] nbr_row(p2[t], k) && nxt.1 == nbr_col(p2[t], k);
        assert(mz.open_cell(nxt));
        if costs.at(nxt) != 0 {
            lemma_nbr_opposite(p2[t], nxt, k);
            assert(nbr_smooth(costs, nxt, (k + 2) % 4));
            assert(costs.at(nxt) <= t + 2);
            lemma_escape_at_least(mz, costs, qv, start, ce, p2, t + 1);
        } else {
            if !qv.contains(p2[t]) {
                assert(nbr_settled(mz, costs, p2[t], k));
                assert(false);
            }
            let i = choose|i: int| 0 <= i < qv.len() && qv[i] == p2[t];
            assert(costs.at(qv[i]) + 1 >= ce);
        }
    }
}

/// Connectivity of generation: solving a generated maze from any of its open
/// cells finds a path, unless that cell is itself on the boundary — as the
/// one carved exit cell is — and so already outside.
pub proof fn lemma_generated_maze_solvable(
    n: usize,
    m: usize,
    mz: Matrix<bool>,
    c: Point,
    r: Option<Path>,
)
    requires
        call_ensures(Matrix::<bool>::generate, (n, m), mz),
        call_ensures(Matrix::<bool>::solve, (&mz, c), r),
        mz.open_cell(c),
    ensures
        r is Some || mz.exit_at(c),
{
    if r is None && !mz.exit_at(c) {
        let s = choose|s: Point|
            mz.in_bounds(s) && mz.exit_at(s) && !mz.at(s) && (forall|c2: Point|
                #[trigger] mz.open_cell(c2) && c2 != s ==> crate::maze::escapes_to(mz, c2, s));
        assert(c != s);
        assert(crate::maze::escapes_to(mz, c, s));
        let p = choose|p: Seq<Point>| #[trigger] mz.path_ok(p, c) && p[p.len() - 1] == s;
        assert(p[p.len() - 1] == c);
        assert(false);
    }
}

/// Solving the same maze from the same start cell is repeatable: whether a
/// path comes back is a function of the maze and the start alone, and any
/// two returned paths have the same length, since each is a shortest escape.
pub proof fn lemma_solve_agrees(
    mz: Matrix<bool>,
    start: Point,
    r1: Option<Path>,
    r2: Option<Path>,
)
    requires
        call_ensures(Matrix::<bool>::solve, (&mz, start), r1),
        call_ensures(Matrix::<bool>::solve, (&mz, start), r2),
    ensures
        r1 is Some <==> r2 is Some,
        r1 matches Some(a) ==> r2 matches Some(b) && a@.len() == b@.len(),
{
    if r1 is Some && r2 is Some {
        let a = r1.unwrap();
        let b = r2.unwrap();
        assert(mz.path_ok(a@, start) && a@[a@.len() - 1] != start);
        assert(mz.path_ok(b@, start) && b@[b@.len() - 1] != start);
        assert(a@.len() >= b@.len());
        assert(b@.len() >= a@.len());
    }
}

impl Matrix<bool> {
    /// No escape exists from `start`: every valid open path out of it comes
    /// back, ending at `start` itself.
    pub open spec fn no_escape(self, start: Point) -> bool {
        forall|p: Seq<Point>| self.path_ok(p, start) ==> p[p.len() - 1] == start
    }

    /// The path is a shortest escape: no valid open path that truly leaves
    /// `start` (rather than ending back on it) is shorter.
    pub open spec fn minimal_escape(self, path: Seq<Point>, start: Point) -> bool {
        forall|p2: Seq<Point>|
            self.path_ok(p2, start) && p2[p2.len() - 1] != start ==> p2.len() >= path.len()
    }

    /// A cost field is consistent with the maze and the start cell: it is a
    /// matrix of the maze's shape whose visited (nonzero) cells are open,
    /// where cost 1 marks exactly the start cell and every visited cell of
    /// higher cost has a visited neighbour of strictly lower cost.
    pub open spec fn costs_ok(self, costs: Matrix<usize>, start: Point) -> bool {
        &&& costs.wf()
        &&& costs.rows() == self.rows()
        &&& costs.cols() == self.cols()
        &&& self.open_cell(start)
        &&& costs.at(start) == 1
        &&& forall|p: Point|
            costs.in_bounds(p) && #[trigger] costs.at(p) != 0 ==> self.open_cell(p)
        &&& forall|p: Point| costs.in_bounds(p) && #[trigger] costs.at(p) == 1 ==> p == start
        &&& forall|p: Point|
            costs.in_bounds(p) && #[trigger] costs.at(p) >= 2 ==> exists|k: int|
                0 <= k < 4 && cheaper_step(costs, p, k)
    }

    /// A valid escape path: nonempty, beginning at `start`, made of open
    /// in-bounds cells, each consecutive pair adjacent, and ending on the
    /// boundary.
    pub open spec fn path_ok(self, p: Seq<Point>, start: Point) -> bool {
        &&& p.len() >= 1
        &&& p[0] == start
        &&& self.exit_at(p[p.len() - 1])
        &&& forall|i: int| 0 <= i < p.len() ==> self.open_cell(#[trigger] p[i])
        &&& forall|i: int| 0 <= i < p.len() - 1 ==> adjacent(#[trigger] p[i], p[i + 1])
    }

    /// One downhill step of the path reconstruction: the first neighbour, in
    /// enumeration order, whose recorded cost is nonzero and strictly below
    /// the current cell's.
    #[verifier::loop_isolation(false)]
    fn step_down(&self, costs: &Matrix<usize>, p: Point) -> (q: Point)
        requires
            self.wf(),
            costs.wf(),
            costs.rows() == self.rows(),
            costs.cols() == self.cols(),
            costs.in_bounds(p),
            exists|k: int| 0 <= k < 4 && cheaper_step(*costs, p, k),
            forall|x: Point, k: int|
                costs.in_bounds(x) && costs.at(x) != 0 && 0 <= k < 4 ==> #[trigger] nbr_smooth(
                    *costs,
                    x,
                    k,
                ),
        ensures
            costs.in_bounds(q),
            0 < costs.at(q) < costs.at(p),
            costs.at(q) + 1 == costs.at(p),
            adjacent(p, q),
    {
        let nb = Neighbours::of(p);
        let cp: usize = *costs.get(p);
        for k in 0..4usize
            invariant
                exists|k2: int| k <= k2 < 4 && cheaper_step(*costs, p, k2),
        {
            let q = nb.get(k);
            if self.is_valid(q) {
                let cq: usize = *costs.get(q);
                if cq != 0 && cq < cp {
                    proof {
                        assert(q.0 == nbr_row(p, k as int) && q.1 == nbr_col(p, k as int));
                        lemma_nbr_opposite(p, q, k as int);
                        assert(nbr_smooth(*costs, p, k as int));
                    }
                    return q;
                }
            }
            proof {
                assert(!cheaper_step(*costs, p, k as int));
            }
        }
        proof {
            assert(false);
        }
        unreached()
    }

    /// Breadth-first shortest-path search over the open cells, from `start`
    /// to the nearest open boundary cell, followed by a downhill walk over the
    /// recorded cost field that rebuilds the path from start to exit.
    ///
    /// A wall start yields `None` at once, with no search. A returned path is
    /// a valid escape path out of `start`, and a path is returned exactly
    /// when the start is open floor and some escape path leaves it.
    #[verifier::loop_isolation(false)]
    pub fn solve(&self, start: Point) -> (r: Option<Path>)
        requires
            self.wf(),
            self.rows() >= 1,
            self.cols() >= 1,
            self.in_bounds(start),
        ensures
            self.at(start) ==> r is None,
            r matches Some(path) ==> self.path_ok(path@, start) && !self.at(start),
            r is None <==> self.at(start) || self.no_escape(start),
            r matches Some(path) ==> path@[path@.len() - 1] != start,
            r matches Some(path) ==> self.minimal_escape(path@, start),
    {
        if *self.get(start) {
            return None;
        }

        let n: usize = self.n_rows();
        let m: usize = self.n_cols();
        let mut queue: VecDeque<Point> = VecDeque::new();
        let mut costs: Matrix<usize> = Matrix::zeros(n, m);
        let mut exit: Option<Point> = None;

        let ghost pre0 = costs;
        costs.set(start, 1);
        proof {
            lemma_marked_set_update(pre0, costs, start, visited_sel());
            lemma_marked_set_props(costs, visited_sel());
        }
        queue.push_back(start);
        proof {
            assert(queue@[0] == start);
            assert forall|q2: Point| costs.in_bounds(q2) && #[trigger] costs.at(q2) != 0
                implies q2 == start by {
                assert(pre0.at(q2) == 0 || q2 == start);
            }
            assert forall|x: Point, k: int|
                costs.in_bounds(x) && costs.at(x) != 0 && 0 <= k < 4 implies #[trigger] nbr_smooth(
                costs,
                x,
                k,
            ) by {
                let i = nbr_row(x, k);
                let j = nbr_col(x, k);
                if 0 <= i < costs.rows() && 0 <= j < costs.cols() && costs.cell(i, j) != 0 {
                    let y = (i as usize, j as usize);
                    assert(costs.at(y) != 0);
                    assert(y == start && x == start);
                    assert(false);
                }
            }
        }

        while queue.len() > 0 && exit.is_none()
            invariant
                self.costs_ok(costs, start),
                costs.rows() == n,
                costs.cols() == m,
                forall|i: int|
                    0 <= i < queue@.len() ==> costs.in_bounds(#[trigger] queue@[i])
                        && costs.at(queue@[i]) != 0,
                forall|p: Point|
                    costs.in_bounds(p) ==> #[trigger] costs.at(p) <= costs.marked_set(
                        visited_sel(),
                    ).len(),
                costs.marked_set(visited_sel()).len() <= n * m,
                exit matches Some(e) ==> costs.in_bounds(e) && costs.at(e) >= 2
                    && self.exit_at(e),
                forall|q: Point, k: int|
                    costs.in_bounds(q) && costs.at(q) != 0 && !queue@.contains(q) && 0 <= k < 4
                        ==> #[trigger] nbr_settled(*self, costs, q, k),
                exit is None ==> forall|q: Point|
                    costs.in_bounds(q) && #[trigger] costs.at(q) != 0 && q != start
                        ==> !self.exit_at(q),
                forall|x: Point, k: int|
                    costs.in_bounds(x) && costs.at(x) != 0 && 0 <= k < 4 ==> #[trigger] nbr_smooth(
                        costs,
                        x,
                        k,
                    ),
                forall|i: int, j: int|
                    #![trigger queue@[i], queue@[j]]
                    0 <= i <= j < queue@.len() ==> costs.at(queue@[i]) <= costs.at(queue@[j]),
                queue@.len() > 0 ==> costs.at(queue@[queue@.len() - 1]) <= costs.at(queue@[0])
                    + 1,
                queue@.len() > 0 ==> forall|x: Point|
                    costs.in_bounds(x) && #[trigger] costs.at(x) != 0 ==> costs.at(x) <= costs.at(
                        queue@[0],
                    ) + 1,
                exit matches Some(e) ==> forall|i: int|
                    0 <= i < queue@.len() ==> costs.at(#[trigger] queue@[i]) + 1 >= costs.at(e),
                exit matches Some(e) ==> forall|x: Point|
                    costs.in_bounds(x) && #[trigger] costs.at(x) != 0 && x != start
                        && self.exit_at(x) ==> costs.at(x) >= costs.at(e),
            decreases queue@.len() + (n * m - costs.marked_set(visited_sel()).len()),
        {
            let ghost prev_queue = queue;
            let popped = queue.pop_front();
            let current = popped.unwrap();
            proof {
                assert forall|q: Point| prev_queue@.contains(q) && q != current
                    implies queue@.contains(q) by {
                    let idx = choose|idx: int|
                        0 <= idx < prev_queue@.len() && prev_queue@[idx] == q;
                    assert(queue@[idx - 1] == q);
                }
            }

            let cp: usize = *costs.get(current);
            proof {
                // The remaining queue spans at most the costs cp and cp + 1.
                assert forall|i: int| 0 <= i < queue@.len() implies cp <= costs.at(
                    #[trigger] queue@[i],
                ) <= cp + 1 by {
                    assert(queue@[i] == prev_queue@[i + 1]);
                    assert(costs.at(prev_queue@[0]) <= costs.at(prev_queue@[i + 1]));
                    assert(costs.at(prev_queue@[i + 1]) <= costs.at(
                        prev_queue@[prev_queue@.len() - 1],
                    ));
                }
            }
            let nbc = Neighbours::of(current);
            let ghost qlen0 = queue@.len();
            let ghost v0 = costs.marked_set(visited_sel());
            for k in 0..4usize
                invariant
                    self.costs_ok(costs, start),
                    costs.rows() == n,
                    costs.cols() == m,
                    costs.in_bounds(current),
                    costs.at(current) == cp,
                    1 <= cp,
                    forall|i: int|
                        0 <= i < queue@.len() ==> costs.in_bounds(#[trigger] queue@[i])
                            && costs.at(queue@[i]) != 0,
                    forall|p: Point|
                        costs.in_bounds(p) ==> #[trigger] costs.at(p) <= costs.marked_set(
                            visited_sel(),
                        ).len(),
                    costs.marked_set(visited_sel()).len() <= n * m,
                    queue@.len() + (n * m - costs.marked_set(visited_sel()).len()) == qlen0 + (
                    n * m - v0.len()),
                    forall|q: Point, k2: int|
                        costs.in_bounds(q) && costs.at(q) != 0 && !queue@.contains(q)
                            && q != current && 0 <= k2 < 4 ==> #[trigger] nbr_settled(
                            *self,
                            costs,
                            q,
                            k2,
                        ),
                    forall|k2: int|
                        0 <= k2 < k ==> #[trigger] nbr_settled(*self, costs, current, k2),
                    exit is None ==> forall|q: Point|
                        costs.in_bounds(q) && #[trigger] costs.at(q) != 0 && q != start
                            ==> !self.exit_at(q),
                    forall|x: Point, k2: int|
                        costs.in_bounds(x) && costs.at(x) != 0 && 0 <= k2 < 4
                            ==> #[trigger] nbr_smooth(costs, x, k2),
                    forall|i: int|
                        0 <= i < queue@.len() ==> cp <= costs.at(#[trigger] queue@[i]) <= cp
                            + 1,
                    forall|i: int, j: int|
                        #![trigger queue@[i], queue@[j]]
                        0 <= i <= j < queue@.len() ==> costs.at(queue@[i]) <= costs.at(
                            queue@[j],
                        ),
                    forall|x: Point|
                        costs.in_bounds(x) && #[trigger] costs.at(x) != 0 ==> costs.at(x) <= cp
                            + 1,
                    exit matches Some(e) ==> costs.in_bounds(e) && self.exit_at(e)
                        && costs.at(e) == cp + 1,
                    exit matches Some(e) ==> forall|x: Point|
                        costs.in_bounds(x) && #[trigger] costs.at(x) != 0 && x != start
                            && self.exit_at(x) ==> costs.at(x) >= costs.at(e),
            {
                let ghost exit0 = exit;
                let q = nbc.get(k);
                if self.is_valid(q) {
                    proof {
                        assert(q.0 == nbr_row(current, k as int) && q.1 == nbr_col(
                            current,
                            k as int,
                        ));
                    }
                    if !*self.get(q) {
                        if *costs.get(q) == 0 {
                            proof {
                                // The candidate is the in-range k-th neighbour
                                // of `current`, and a fresh visit: headroom
                                // for one more cost value.
                                lemma_marked_set_props(costs, visited_sel());
                                let v = costs.marked_set(visited_sel());
                                let f = q.0 * costs.cols() + q.1;
                                lemma_flat_index(q.0 as int, q.1 as int, n as int, m as int);
                                assert(costs.at(q) == 0);
                                assert(!v.contains(f));
                                vstd::set_lib::lemma_int_range(0, n as int * m as int);
                                assert(v.insert(f).subset_of(
                                    vstd::set_lib::set_int_range(0, n as int * m as int),
                                ));
                                vstd::set_lib::lemma_len_subset(
                                    v.insert(f),
                                    vstd::set_lib::set_int_range(0, n as int * m as int),
                                );
                                assert(v.len() + 1 <= n * m);
                                assert(cp + 1 <= usize::MAX);
                            }
                            if self.is_exit(q) {
                                exit = Some(q);
                            }
                            let ghost prec = costs;
                            let ghost preq = queue;
                            costs.set(q, cp + 1);
                            proof {
                                lemma_marked_set_update(prec, costs, q, visited_sel());
                                lemma_marked_set_props(costs, visited_sel());
                                assert(costs.at(current) == cp);
                                // The fresh cell's cheaper neighbour is
                                // `current` itself, reached back through the
                                // opposite direction.
                                lemma_nbr_opposite(current, q, k as int);
                                assert(cheaper_step(costs, q, ((k + 2) % 4) as int));
                                // Every other visited cell keeps its witness:
                                // costs only changed at `q`, which was not
                                // visited before.
                                assert forall|p: Point|
                                    costs.in_bounds(p) && #[trigger] costs.at(p) >= 2
                                        implies exists|k3: int|
                                        0 <= k3 < 4 && cheaper_step(costs, p, k3) by {
                                    if p == q {
                                        assert(cheaper_step(costs, q, ((k + 2) % 4) as int));
                                    } else {
                                        assert(prec.at(p) == costs.at(p));
                                        let k2 = choose|k2: int|
                                            0 <= k2 < 4 && cheaper_step(prec, p, k2);
                                        assert(cheaper_step(costs, p, k2));
                                    }
                                }
                            }
                            queue.push_back(q);
                            proof {
                                assert(queue@[queue@.len() - 1] == q);
                                assert forall|x: Point| preq@.contains(x)
                                    implies queue@.contains(x) by {
                                    let idx = choose|idx: int|
                                        0 <= idx < preq@.len() && preq@[idx] == x;
                                    assert(queue@[idx] == x);
                                }
                                assert forall|i2: int| 0 <= i2 < preq@.len()
                                    implies preq@[i2] != q && costs.at(#[trigger] preq@[i2])
                                    == prec.at(preq@[i2]) by {
                                    assert(prec.at(preq@[i2]) != 0);
                                }
                                assert forall|q2: Point, k2: int|
                                    costs.in_bounds(q2) && costs.at(q2) != 0
                                        && !queue@.contains(q2) && q2 != current && 0 <= k2
                                        < 4 implies nbr_settled(*self, costs, q2, k2) by {
                                    assert(q2 != q);
                                    assert(prec.at(q2) == costs.at(q2));
                                    assert(nbr_settled(*self, prec, q2, k2));
                                    let i2 = nbr_row(q2, k2);
                                    let j2 = nbr_col(q2, k2);
                                    if 0 <= i2 < costs.rows() && 0 <= j2 < costs.cols()
                                        && !self.cell(i2, j2) {
                                        if i2 == q.0 && j2 == q.1 {
                                            assert(costs.cell(i2, j2) == cp + 1);
                                        } else {
                                            assert(costs.cell(i2, j2) == prec.cell(i2, j2));
                                        }
                                    }
                                }
                                assert forall|k2: int| 0 <= k2 < k + 1
                                    implies nbr_settled(*self, costs, current, k2) by {
                                    let i2 = nbr_row(current, k2);
                                    let j2 = nbr_col(current, k2);
                                    if k2 == k {
                                        assert(costs.cell(i2, j2) == cp + 1);
                                    } else {
                                        assert(nbr_settled(*self, prec, current, k2));
                                        if 0 <= i2 < costs.rows() && 0 <= j2 < costs.cols()
                                            && !self.cell(i2, j2) {
                                            if i2 == q.0 && j2 == q.1 {
                                                assert(costs.cell(i2, j2) == cp + 1);
                                            } else {
                                                assert(costs.cell(i2, j2) == prec.cell(
                                                    i2,
                                                    j2,
                                                ));
                                            }
                                        }
                                    }
                                }
                                // The fresh cost cp + 1 keeps adjacent visited
                                // costs within one of each other: a visited
                                // neighbour of the fresh cell is the current
                                // cell, or waits in the queue at cost cp or
                                // cp + 1; it cannot be settled, or the fresh
                                // cell would have been visited already.
                                assert forall|x: Point, k2: int|
                                    costs.in_bounds(x) && costs.at(x) != 0 && 0 <= k2 < 4
                                        implies nbr_smooth(costs, x, k2) by {
                                    let i2 = nbr_row(x, k2);
                                    let j2 = nbr_col(x, k2);
                                    if 0 <= i2 < costs.rows() && 0 <= j2 < costs.cols()
                                        && costs.cell(i2, j2) != 0 {
                                        let y = (i2 as usize, j2 as usize);
                                        assert(costs.in_bounds(y));
                                        assert(costs.at(y) == costs.cell(i2, j2));
                                        if x == q {
                                            assert(y != q);
                                            if y == current {
                                                assert(costs.at(y) == cp);
                                            } else {
                                                assert(costs.at(y) == prec.at(y));
                                                assert(prec.at(y) != 0);
                                                if preq@.contains(y) {
                                                    let idx = choose|idx: int|
                                                        0 <= idx < preq@.len() && preq@[idx]
                                                            == y;
                                                    assert(cp <= prec.at(preq@[idx]));
                                                } else {
                                                    lemma_nbr_opposite(x, y, k2);
                                                    assert(nbr_settled(
                                                        *self,
                                                        prec,
                                                        y,
                                                        ((k2 + 2) % 4) as int,
                                                    ));
                                                    assert(prec.at(q) == 0);
                                                    assert(false);
                                                }
                                            }
                                        } else {
                                            assert(costs.at(x) == prec.at(x));
                                            assert(nbr_smooth(prec, x, k2));
                                            if i2 == q.0 && j2 == q.1 {
                                                assert(costs.at(x) <= cp + 1);
                                                assert(costs.cell(i2, j2) == cp + 1);
                                            } else {
                                                assert(costs.cell(i2, j2) == prec.cell(
                                                    i2,
                                                    j2,
                                                ));
                                            }
                                        }
                                    }
                                }
                                assert forall|i2: int, j2: int|
                                    #![trigger queue@[i2], queue@[j2]]
                                    0 <= i2 <= j2 < queue@.len() implies costs.at(queue@[i2])
                                    <= costs.at(queue@[j2]) by {
                                    if j2 < queue@.len() - 1 {
                                        assert(queue@[i2] == preq@[i2]);
                                        assert(queue@[j2] == preq@[j2]);
                                    } else {
                                        assert(queue@[j2] == q);
                                        if i2 < j2 {
                                            assert(queue@[i2] == preq@[i2]);
                                        }
                                    }
                                }
                                assert forall|i2: int| 0 <= i2 < queue@.len() implies cp
                                    <= costs.at(#[trigger] queue@[i2]) <= cp + 1 by {
                                    if i2 < queue@.len() - 1 {
                                        assert(queue@[i2] == preq@[i2]);
                                    } else {
                                        assert(queue@[i2] == q);
                                    }
                                }
                                assert forall|x: Point|
                                    costs.in_bounds(x) && costs.at(x) != 0 implies costs.at(x)
                                    <= cp + 1 by {
                                    if x != q {
                                        assert(costs.at(x) == prec.at(x));
                                    }
                                }
                                if exit is None {
                                    assert(!self.exit_at(q));
                                    assert forall|q2: Point|
                                        costs.in_bounds(q2) && costs.at(q2) != 0 && q2 != start
                                            implies !self.exit_at(q2) by {
                                        if q2 != q {
                                            assert(prec.at(q2) == costs.at(q2));
                                        }
                                    }
                                } else {
                                    assert forall|x: Point|
                                        costs.in_bounds(x) && costs.at(x) != 0 && x != start
                                            && self.exit_at(x) implies costs.at(x) >= cp
                                        + 1 by {
                                        if x != q {
                                            assert(costs.at(x) == prec.at(x));
                                            if exit0 is Some {
                                                assert(prec.at(x) >= cp + 1);
                                            } else {
                                                assert(false);
                                            }
                                        }
                                    }
                                }
                            }
                        } else {
                            proof {
                                assert(nbr_settled(*self, costs, current, k as int));
                            }
                        }
                    } else {
                        proof {
                            assert(nbr_settled(*self, costs, current, k as int));
                        }
                    }
                } else {
                    proof {
                        assert(nbr_settled(*self, costs, current, k as int));
                    }
                }
            }
        }

        let e = match exit {
            Some(p) => p,
            None => {
                proof {
                    // The search drained: the visited region is closed under
                    // stepping to open neighbours, and holds no boundary cell
                    // besides possibly the start. Every escape path stays
                    // inside it, so it can only end back at the start.
                    assert(queue@.len() == 0);
                    assert forall|q: Point, k: int|
                        costs.in_bounds(q) && costs.at(q) != 0 && 0 <= k < 4
                            implies #[trigger] nbr_settled(*self, costs, q, k) by {
                        assert(!queue@.contains(q));
                    }
                    assert forall|p: Seq<Point>| self.path_ok(p, start)
                        implies p[p.len() - 1] == start by {
                        lemma_path_visited(*self, costs, start, p, p.len() - 1);
                        if p[p.len() - 1] != start {
                            assert(costs.at(p[p.len() - 1]) != 0);
                            assert(false);
                        }
                    }
                    assert(self.no_escape(start));
                }
                return None
            },
        };
        let ghost ce = costs.at(e) as int;
        let mut current: Point = e;
        let mut path: Vec<Point> = Vec::new();
        path.push(current);

        while !(current.0 == start.0 && current.1 == start.1)
            invariant
                costs.in_bounds(current),
                costs.at(current) != 0,
                path@.len() >= 1,
                path@[0] == e,
                path@[path@.len() - 1] == current,
                path@.len() + costs.at(current) == ce + 1,
                forall|i: int| 0 <= i < path@.len() ==> self.open_cell(#[trigger] path@[i]),
                forall|i: int|
                    0 <= i < path@.len() - 1 ==> adjacent(#[trigger] path@[i], path@[i + 1]),
            decreases costs.at(current),
        {
            proof {
                assert(current != start);
                assert(costs.at(current) >= 2);
            }
            let q = self.step_down(&costs, current);
            path.push(q);
            current = q;
        }

        // The walk ran from the exit down to the start: reverse it.
        let mut result: Vec<Point> = Vec::new();
        let mut idx: usize = path.len();
        while idx > 0
            invariant
                idx <= path@.len(),
                result@.len() == path@.len() - idx,
                forall|t: int|
                    0 <= t < result@.len() ==> #[trigger] result@[t] == path@[path@.len() - 1
                        - t],
            decreases idx,
        {
            idx = idx - 1;
            result.push(path[idx]);
        }
        proof {
            assert(result@[0] == path@[path@.len() - 1]);
            assert(self.exit_at(result@[result@.len() - 1]));
            assert forall|i: int| 0 <= i < result@.len() - 1 implies adjacent(
                #[trigger] result@[i],
                result@[i + 1],
            ) by {
                let len = path@.len();
                assert(result@[i] == path@[len - 1 - i]);
                assert(result@[i + 1] == path@[len - 1 - (i + 1)]);
                assert(adjacent(path@[len - 2 - i], path@[len - 1 - i]));
            }
            assert(self.path_ok(result@, start));
            // The found path leaves the start: its endpoint is a boundary
            // cell distinct from the start, so an escape does exist.
            assert(result@[result@.len() - 1] == e);
            assert(e != start);
            assert(!self.no_escape(start));
            // And it is a shortest one: it has exactly the exit's cost many
            // cells, while every escape path needs at least that many.
            assert(result@.len() == ce);
            assert forall|p2: Seq<Point>|
                self.path_ok(p2, start) && p2[p2.len() - 1] != start
                    implies p2.len() >= result@.len() by {
                lemma_escape_at_least(*self, costs, queue@, start, ce, p2, 0);
            }
            assert(self.minimal_escape(result@, start));
        }
        Some(result)
    }
}

} // verus!

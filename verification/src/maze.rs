use vstd::prelude::*;

use crate::grid::{lemma_marked_set_props, lemma_marked_set_update, Matrix, Point};
use crate::neighbour::{adjacent, lemma_nbr_opposite, nbr_col, nbr_row, Neighbours};
use crate::randsrc::{new_rng, rand_below, rand_bool};

verus! {

/// A maze: `true` marks a wall, `false` marks open floor.
pub type Maze = Matrix<bool>;

/// Selects wall cells in a maze's backing matrix.
pub open spec fn is_wall_sel() -> spec_fn(bool) -> bool {
    |b: bool| b
}

/// The `k`-th neighbour of `x` lies inside the maze and is open floor.
pub open spec fn nbr_open(mz: Matrix<bool>, x: Point, k: int) -> bool {
    let i = nbr_row(x, k);
    let j = nbr_col(x, k);
    0 <= i < mz.rows() && 0 <= j < mz.cols() && !mz.cell(i, j)
}

/// The cell has at least one open in-bounds neighbour.
pub open spec fn has_open_nbr(mz: Matrix<bool>, x: Point) -> bool {
    exists|k: int| 0 <= k < 4 && nbr_open(mz, x, k)
}

/// Some valid escape path leads from `c` to the cell `s`.
pub open spec fn escapes_to(mz: Matrix<bool>, c: Point, s: Point) -> bool {
    exists|p: Seq<Point>| #[trigger] mz.path_ok(p, c) && p[p.len() - 1] == s
}

/// Opening one more cell preserves every valid escape path.
proof fn lemma_path_ok_monotone(pre: Matrix<bool>, post: Matrix<bool>, p: Seq<Point>, c: Point)
    requires
        post.rows() == pre.rows(),
        post.cols() == pre.cols(),
        forall|x: Point| pre.open_cell(x) ==> post.open_cell(x),
        pre.path_ok(p, c),
    ensures
        post.path_ok(p, c),
{
    assert forall|i: int| 0 <= i < p.len() implies post.open_cell(#[trigger] p[i]) by {
        assert(pre.open_cell(p[i]));
    }
}

impl Matrix<bool> {
    /// The cell lies on the outer boundary of the maze.
    pub open spec fn exit_at(self, p: Point) -> bool {
        p.0 == 0 || p.0 + 1 == self.rows() || p.1 == 0 || p.1 + 1 == self.cols()
    }

    /// The cell lies inside the maze and is open floor.
    pub open spec fn open_cell(self, p: Point) -> bool {
        self.in_bounds(p) && !self.at(p)
    }

    /// Whether the cell lies on the outer boundary.
    pub fn is_exit(&self, point: Point) -> (r: bool)
        requires
            self.rows() >= 1,
            self.cols() >= 1,
        ensures
            r == self.exit_at(point),
    {
        point.0 == 0 || point.0 == self.n_rows() - 1 || point.1 == 0 || point.1 == self.n_cols()
            - 1
    }

    /// Bounds check: whether the cell lies inside the maze.
    pub fn is_valid(&self, point: Point) -> (r: bool)
        ensures
            r == self.in_bounds(point),
    {
        point.0 < self.n_rows() && point.1 < self.n_cols()
    }

    /// Generates a maze with the randomized frontier-carving (Prim's-style)
    /// algorithm: one boundary exit is carved at random, then wall cells
    /// adjacent to the carved region are drawn at random from a frontier list
    /// and carved whenever doing so joins at most one already-carved
    /// neighbour, which keeps the carved region a single tree.
    #[verifier::loop_isolation(false)]
    #[verifier::rlimit(60)]
    pub fn generate(n: usize, m: usize) -> (r: Maze)
        requires
            1 <= n,
            1 <= m,
            n * m <= usize::MAX,
        ensures
            r.wf(),
            r.rows() == n,
            r.cols() == m,
            exists|s: Point|
                r.in_bounds(s) && r.exit_at(s) && !r.at(s) && (forall|c: Point|
                    #[trigger] r.open_cell(c) && c != s ==> escapes_to(r, c, s)),
    {
        let mut maze: Maze = Matrix::walls(n, m);
        let mut cells: Vec<Point> = Vec::new();
        let mut rng = new_rng();

        // Choose the boundary exit: a random row on the left edge, or a
        // random column on the top edge.
        let x = rand_below(&mut rng, n);
        let y = rand_below(&mut rng, m);
        let start: Point = if rand_bool(&mut rng) {
            (x, 0)
        } else {
            (0, y)
        };
        maze.set(start, false);
        proof {
            assert forall|c: Point| #[trigger] maze.open_cell(c) implies c == start by {
                assert(c != start ==> maze.at(c));
            }
        }

        // Seed the frontier with every in-bounds walled neighbour of the exit.
        let nb = Neighbours::of(start);
        for k in 0..4usize
            invariant
                forall|i: int|
                    0 <= i < cells@.len() ==> maze.in_bounds(#[trigger] cells@[i]),
                forall|i: int| 0 <= i < cells@.len() ==> has_open_nbr(maze, #[trigger] cells@[i]),
        {
            let q = nb.get(k);
            if maze.is_valid(q) {
                if *maze.get(q) {
                    proof {
                        assert(q.0 == nbr_row(start, k as int) && q.1 == nbr_col(
                            start,
                            k as int,
                        ));
                        lemma_nbr_opposite(start, q, k as int);
                        assert(nbr_open(maze, q, (k as int + 2) % 4));
                        assert(has_open_nbr(maze, q));
                    }
                    cells.push(q);
                }
            }
        }

        loop
            invariant
                maze.wf(),
                maze.rows() == n,
                maze.cols() == m,
                maze.in_bounds(start),
                maze.exit_at(start),
                !maze.at(start),
                forall|i: int| 0 <= i < cells@.len() ==> maze.in_bounds(#[trigger] cells@[i]),
                forall|i: int| 0 <= i < cells@.len() ==> has_open_nbr(maze, #[trigger] cells@[i]),
                forall|c: Point|
                    #[trigger] maze.open_cell(c) && c != start ==> escapes_to(maze, c, start),
            decreases cells@.len() + 5 * maze.marked_set(is_wall_sel()).len(),
        {
            let ghost cells0 = cells;
            let popped = remove_random(&mut cells, &mut rng);
            let current = match popped {
                Some(c) => c,
                None => { break },
            };
            proof {
                assert forall|i: int|
                    0 <= i < cells@.len() implies has_open_nbr(maze, #[trigger] cells@[i]) by {
                    let i0 = choose|i0: int|
                        0 <= i0 < cells0@.len() && cells@[i] == cells0@[i0];
                    assert(has_open_nbr(maze, cells0@[i0]));
                }
                let i0 = choose|i0: int| 0 <= i0 < cells0@.len() && current == cells0@[i0];
                assert(has_open_nbr(maze, cells0@[i0]));
                assert(has_open_nbr(maze, current));
            }
            // The frontier holds wall cells; an entry already carved through a
            // duplicate is spent without effect.
            if !*maze.get(current) {
                continue;
            }
            let nbc = Neighbours::of(current);
            let mut explored: usize = 0;
            for k in 0..4usize
                invariant
                    explored <= k,
            {
                let q = nbc.get(k);
                if maze.is_valid(q) {
                    if !*maze.get(q) {
                        explored = explored + 1;
                    }
                }
            }
            if explored < 2 {
                let ghost pre = maze;
                proof {
                    lemma_marked_set_props(pre, is_wall_sel());
                }
                maze.set(current, false);
                proof {
                    lemma_marked_set_update(pre, maze, current, is_wall_sel());
                    // Carving is monotone: no cell closes.
                    assert forall|x: Point| pre.open_cell(x) implies maze.open_cell(x) by {
                        if x != current {
                            assert(maze.at(x) == pre.at(x));
                        }
                    }
                    assert forall|x: Point| has_open_nbr(pre, x) implies has_open_nbr(
                        maze,
                        x,
                    ) by {
                        let kx = choose|kx: int| 0 <= kx < 4 && nbr_open(pre, x, kx);
                        let y = (nbr_row(x, kx) as usize, nbr_col(x, kx) as usize);
                        assert(pre.open_cell(y));
                        assert(maze.open_cell(y));
                        assert(nbr_open(maze, x, kx));
                    }
                    // The carved cell reaches the exit through one of its
                    // already-open neighbours; every other open cell keeps
                    // its old route.
                    let ghost k0 = choose|k0: int| 0 <= k0 < 4 && nbr_open(pre, current, k0);
                    let ghost d = (
                        nbr_row(current, k0) as usize,
                        nbr_col(current, k0) as usize,
                    );
                    assert(pre.open_cell(d));
                    lemma_nbr_opposite(current, d, k0);
                    assert(adjacent(current, d));
                    assert forall|c: Point|
                        #[trigger] maze.open_cell(c) && c != start implies escapes_to(
                        maze,
                        c,
                        start,
                    ) by {
                        if c == current {
                            if d == start {
                                let p = seq![current, start];
                                assert(p[1] == start);
                                assert(maze.path_ok(p, current) && p[p.len() - 1] == start);
                            } else {
                                assert(escapes_to(pre, d, start));
                                let pd = choose|pd: Seq<Point>|
                                    #[trigger] pre.path_ok(pd, d) && pd[pd.len() - 1]
                                        == start;
                                lemma_path_ok_monotone(pre, maze, pd, d);
                                let p = seq![current] + pd;
                                assert(p[0] == current);
                                assert forall|t: int|
                                    0 <= t < p.len() implies maze.open_cell(
                                    #[trigger] p[t],
                                ) by {
                                    if t > 0 {
                                        assert(p[t] == pd[t - 1]);
                                    }
                                }
                                assert forall|t: int|
                                    0 <= t < p.len() - 1 implies adjacent(
                                    #[trigger] p[t],
                                    p[t + 1],
                                ) by {
                                    if t == 0 {
                                        assert(p[1] == pd[0] && pd[0] == d);
                                    } else {
                                        assert(p[t] == pd[t - 1] && p[t + 1] == pd[t]);
                                    }
                                }
                                assert(p[p.len() - 1] == pd[pd.len() - 1]);
                                assert(maze.path_ok(p, current) && p[p.len() - 1] == start);
                            }
                        } else {
                            assert(pre.open_cell(c));
                            assert(escapes_to(pre, c, start));
                            let pc = choose|pc: Seq<Point>|
                                #[trigger] pre.path_ok(pc, c) && pc[pc.len() - 1] == start;
                            lemma_path_ok_monotone(pre, maze, pc, c);
                            assert(maze.path_ok(pc, c) && pc[pc.len() - 1] == start);
                        }
                    }
                }
                let ghost len0 = cells@.len();
                for k in 0..4usize
                    invariant
                        cells@.len() <= len0 + k,
                        forall|i: int|
                            0 <= i < cells@.len() ==> maze.in_bounds(#[trigger] cells@[i]),
                        forall|i: int|
                            0 <= i < cells@.len() ==> has_open_nbr(maze, #[trigger] cells@[i]),
                {
                    let q = nbc.get(k);
                    if maze.is_valid(q) {
                        if *maze.get(q) {
                            proof {
                                assert(q.0 == nbr_row(current, k as int) && q.1 == nbr_col(
                                    current,
                                    k as int,
                                ));
                                lemma_nbr_opposite(current, q, k as int);
                                assert(nbr_open(maze, q, (k as int + 2) % 4));
                                assert(has_open_nbr(maze, q));
                            }
                            cells.push(q);
                        }
                    }
                }
            }
        }
        proof {
            assert(maze.in_bounds(start) && maze.exit_at(start) && !maze.at(start));
        }
        maze
    }
}

/// Removes and returns one element of the list, drawn uniformly at random
/// among the current entries (duplicates included), by swapping it with the
/// last element and popping; `None` exactly when the list is empty.
fn remove_random(v: &mut Vec<Point>, rng: &mut rand::rngs::ThreadRng) -> (r: Option<Point>)
    ensures
        r is None ==> old(v)@.len() == 0 && final(v)@ == old(v)@,
        r matches Some(x) ==> {
            &&& old(v)@.len() >= 1
            &&& final(v)@.len() == old(v)@.len() - 1
            &&& exists|i: int| 0 <= i < old(v)@.len() && x == old(v)@[i]
            &&& forall|j: int|
                0 <= j < final(v)@.len() ==> exists|i: int|
                    0 <= i < old(v)@.len() && #[trigger] final(v)@[j] == old(v)@[i]
        },
{
    if v.len() == 0 {
        None
    } else {
        let index = rand_below(rng, v.len());
        let x = v.swap_remove(index);
        proof {
            assert(x == old(v)@[index as int]);
            assert forall|j: int| 0 <= j < v@.len() implies exists|i: int|
                0 <= i < old(v)@.len() && #[trigger] v@[j] == old(v)@[i] by {
                if j == index {
                    assert(v@[j] == old(v)@[old(v)@.len() - 1]);
                } else {
                    assert(v@[j] == old(v)@[j]);
                }
            }
        }
        Some(x)
    }
}

} // verus!

use vstd::prelude::*;

use crate::grid::Point;

verus! {

/// Row of the `k`-th von Neumann neighbour of `p`, over unbounded integers.
/// The order is fixed: north, east, south, west.
pub open spec fn nbr_row(p: Point, k: int) -> int {
    if k == 0 {
        p.0 - 1
    } else if k == 2 {
        p.0 + 1
    } else {
        p.0 as int
    }
}

/// Column of the `k`-th von Neumann neighbour of `p`.
pub open spec fn nbr_col(p: Point, k: int) -> int {
    if k == 1 {
        p.1 + 1
    } else if k == 3 {
        p.1 - 1
    } else {
        p.1 as int
    }
}

/// A coordinate folded back into the unsigned range: a step below zero lands
/// on `usize::MAX`, a step above `usize::MAX` lands on zero. Such a wrapped
/// coordinate lies outside every matrix that can contain the cell it was
/// stepped from, so a bounds check rejects it.
pub open spec fn wrap_coord(x: int) -> int {
    if x < 0 {
        x + usize::MAX + 1
    } else if x > usize::MAX {
        x - usize::MAX - 1
    } else {
        x
    }
}

/// Two cells are von Neumann adjacent: they differ by one in exactly one
/// coordinate.
pub open spec fn adjacent(a: Point, b: Point) -> bool {
    ||| (a.0 == b.0 && (a.1 + 1 == b.1 || b.1 + 1 == a.1))
    ||| (a.1 == b.1 && (a.0 + 1 == b.0 || b.0 + 1 == a.0))
}

/// Every neighbour index has an opposite one pointing back: stepping from the
/// in-range neighbour with the opposite index returns to the original cell.
pub proof fn lemma_nbr_opposite(p: Point, q: Point, k: int)
    requires
        0 <= k < 4,
        q.0 == nbr_row(p, k),
        q.1 == nbr_col(p, k),
    ensures
        p.0 == nbr_row(q, (k + 2) % 4),
        p.1 == nbr_col(q, (k + 2) % 4),
        adjacent(p, q),
{
}

/// Every pair of adjacent cells is related by one of the four neighbour
/// indices.
pub proof fn lemma_adjacent_nbr_index(a: Point, b: Point)
    requires
        adjacent(a, b),
    ensures
        exists|k: int| 0 <= k < 4 && b.0 == nbr_row(a, k) && b.1 == nbr_col(a, k),
{
    if a.0 == b.0 {
        if a.1 + 1 == b.1 {
            assert(b.0 == nbr_row(a, 1) && b.1 == nbr_col(a, 1));
        } else {
            assert(b.0 == nbr_row(a, 3) && b.1 == nbr_col(a, 3));
        }
    } else {
        if a.0 + 1 == b.0 {
            assert(b.0 == nbr_row(a, 2) && b.1 == nbr_col(a, 2));
        } else {
            assert(b.0 == nbr_row(a, 0) && b.1 == nbr_col(a, 0));
        }
    }
}

/// Enumerator of the four axis-aligned neighbour candidates of a cell, in the
/// fixed order north, east, south, west. It does no bounds filtering: every
/// consumer must bounds-check each candidate before using it.
pub struct Neighbours {
    point: Point,
    neighbour: usize,
}

impl Neighbours {
    /// The cell whose neighbours are enumerated.
    pub closed spec fn base(self) -> Point {
        self.point
    }

    /// How many candidates have been yielded so far.
    pub closed spec fn passed(self) -> int {
        self.neighbour as int
    }

    /// A fresh enumerator on the neighbours of a point.
    pub fn of(point: Point) -> (r: Self)
        ensures
            r.base() == point,
            r.passed() == 0,
    {
        Neighbours { point, neighbour: 0 }
    }

    /// The `k`-th candidate neighbour. A coordinate that would leave the
    /// unsigned range wraps around; the rejection of such a candidate is the
    /// caller's explicit bounds check.
    pub fn get(&self, k: usize) -> (q: Point)
        requires
            k < 4,
        ensures
            q.0 == wrap_coord(nbr_row(self.base(), k as int)),
            q.1 == wrap_coord(nbr_col(self.base(), k as int)),
    {
        let (x, y) = self.point;
        if k == 0 {
            (if x == 0 { usize::MAX } else { x - 1 }, y)
        } else if k == 1 {
            (x, if y == usize::MAX { 0 } else { y + 1 })
        } else if k == 2 {
            (if x == usize::MAX { 0 } else { x + 1 }, y)
        } else {
            (x, if y == 0 { usize::MAX } else { y - 1 })
        }
    }

    /// The next candidate neighbour, or `None` once all four were yielded.
    /// Each fresh enumerator restarts the same sequence of exactly four
    /// candidates.
    pub fn next(&mut self) -> (r: Option<Point>)
        ensures
            final(self).base() == old(self).base(),
            old(self).passed() >= 4 ==> r is None && final(self).passed() == old(self).passed(),
            old(self).passed() < 4 ==> {
                &&& final(self).passed() == old(self).passed() + 1
                &&& r matches Some(q) && q.0 == wrap_coord(nbr_row(old(self).base(), old(self).passed()))
                    && q.1 == wrap_coord(nbr_col(old(self).base(), old(self).passed()))
            },
    {
        if self.neighbour < 4 {
            let q = self.get(self.neighbour);
            self.neighbour = self.neighbour + 1;
            Some(q)
        } else {
            None
        }
    }
}

} // verus!

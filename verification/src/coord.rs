//! Cell coordinates and their total order.
//!
//! A coordinate is a point on the unbounded grid, one full signed
//! 32-bit range per axis. Coordinates are ordered lexicographically,
//! `x` first, then `y`; the neighbor-counting merge depends on live
//! cells and neighbor candidates being sorted by this exact order, so
//! the comparison is written out explicitly rather than left to a
//! derived ordering.

use vstd::prelude::*;

verus! {

/// A point on the grid. The grid does not wrap: a coordinate at the
/// minimum or maximum representable value on an axis has no neighbor on
/// the side that would overflow.
#[derive(PartialEq, Eq, PartialOrd, Ord, Clone, Copy, Debug, Structural)]
pub struct CellCoord {
    pub x: i32,
    pub y: i32,
}

/// A living cell. Its identity is its coordinate; being present in a
/// colony's live-cell sequence is what makes it alive.
#[derive(PartialEq, Eq, PartialOrd, Ord, Clone, Copy, Debug, Structural)]
pub struct Cell {
    pub coord: CellCoord,
}

impl Cell {
    pub fn new(coord: CellCoord) -> (cell: Cell)
        ensures
            cell.coord == coord,
    {
        Cell { coord }
    }
}

/// Strict lexicographic order on coordinates: `x` first, then `y`.
pub open spec fn coord_lt(a: CellCoord, b: CellCoord) -> bool {
    a.x < b.x || (a.x == b.x && a.y < b.y)
}

/// Non-strict companion of `coord_lt`.
pub open spec fn coord_le(a: CellCoord, b: CellCoord) -> bool {
    coord_lt(a, b) || a == b
}

/// The explicit comparator realizing `coord_lt`.
pub fn coord_less(a: CellCoord, b: CellCoord) -> (r: bool)
    ensures
        r == coord_lt(a, b),
{
    a.x < b.x || (a.x == b.x && a.y < b.y)
}

/// The explicit comparator realizing `coord_le`.
pub fn coord_less_eq(a: CellCoord, b: CellCoord) -> (r: bool)
    ensures
        r == coord_le(a, b),
{
    a.x < b.x || (a.x == b.x && a.y <= b.y)
}

/// A coordinate sequence sorted in ascending order; equal coordinates
/// may repeat (the neighbor workspace is a multiset).
pub open spec fn sorted_le(s: Seq<CellCoord>) -> bool {
    forall|i: int, j: int| 0 <= i < j < s.len() ==> coord_le(s[i], s[j])
}

/// A cell sequence sorted in strictly ascending coordinate order; this
/// implies there are no duplicate coordinates.
pub open spec fn strictly_sorted(s: Seq<Cell>) -> bool {
    forall|i: int, j: int| 0 <= i < j < s.len() ==> coord_lt(s[i].coord, s[j].coord)
}

/// Whether some cell of `s` sits at coordinate `c`.
pub open spec fn in_cells(s: Seq<Cell>, c: CellCoord) -> bool {
    exists|k: int| 0 <= k < s.len() && s[k].coord == c
}

/// A strictly sorted cell sequence is determined by which coordinates
/// are in it: two such sequences with the same membership are equal.
/// Together with the generation step's contract this pins the stepped
/// sequence down completely.
pub proof fn lemma_strictly_sorted_unique(s1: Seq<Cell>, s2: Seq<Cell>)
    requires
        strictly_sorted(s1),
        strictly_sorted(s2),
        forall|c: CellCoord| #[trigger] in_cells(s1, c) <==> in_cells(s2, c),
    ensures
        s1 == s2,
    decreases s1.len(),
{
    if s1.len() == 0 {
        if s2.len() > 0 {
            assert(in_cells(s2, s2[0].coord));
            assert(in_cells(s1, s2[0].coord));
        }
        assert(s1 =~= s2);
    } else if s2.len() == 0 {
        assert(in_cells(s1, s1[0].coord));
        assert(in_cells(s2, s1[0].coord));
    } else {
        // The heads coincide: each head is a member of the other
        // sequence, and everything there sits at or above that
        // sequence's head.
        assert(in_cells(s1, s1[0].coord));
        assert(in_cells(s2, s2[0].coord));
        assert(in_cells(s1, s2[0].coord));
        assert(in_cells(s2, s1[0].coord));
        let k1 = choose|k: int| 0 <= k < s1.len() && s1[k].coord == s2[0].coord;
        let k2 = choose|k: int| 0 <= k < s2.len() && s2[k].coord == s1[0].coord;
        assert(k1 == 0 || coord_lt(s1[0].coord, s1[k1].coord));
        assert(k2 == 0 || coord_lt(s2[0].coord, s2[k2].coord));
        assert(s1[0] == s2[0]);

        let t1 = s1.drop_first();
        let t2 = s2.drop_first();
        assert forall|p: int, q: int| 0 <= p < q < t1.len() implies coord_lt(
            t1[p].coord,
            t1[q].coord,
        ) by {
            assert(t1[p] == s1[p + 1]);
            assert(t1[q] == s1[q + 1]);
        }
        assert forall|p: int, q: int| 0 <= p < q < t2.len() implies coord_lt(
            t2[p].coord,
            t2[q].coord,
        ) by {
            assert(t2[p] == s2[p + 1]);
            assert(t2[q] == s2[q + 1]);
        }
        assert forall|c: CellCoord| #[trigger] in_cells(t1, c) <==> in_cells(t2, c) by {
            if in_cells(t1, c) {
                let k = choose|k: int| 0 <= k < t1.len() && t1[k].coord == c;
                assert(t1[k] == s1[k + 1]);
                assert(in_cells(s1, c));
                assert(in_cells(s2, c));
                assert(coord_lt(s1[0].coord, c));
                let m = choose|m: int| 0 <= m < s2.len() && s2[m].coord == c;
                assert(m > 0);
                assert(t2[m - 1] == s2[(m - 1) + 1]);
                assert(in_cells(t2, c));
            }
            if in_cells(t2, c) {
                let k = choose|k: int| 0 <= k < t2.len() && t2[k].coord == c;
                assert(t2[k] == s2[k + 1]);
                assert(in_cells(s2, c));
                assert(in_cells(s1, c));
                assert(coord_lt(s2[0].coord, c));
                let m = choose|m: int| 0 <= m < s1.len() && s1[m].coord == c;
                assert(m > 0);
                assert(t1[m - 1] == s1[(m - 1) + 1]);
                assert(in_cells(t1, c));
            }
        }
        lemma_strictly_sorted_unique(t1, t2);
        assert forall|k: int| 0 <= k < s1.len() implies s1[k] == s2[k] by {
            if k > 0 {
                assert(t1[k - 1] == s1[(k - 1) + 1]);
                assert(t2[k - 1] == s2[(k - 1) + 1]);
            }
        }
        assert(s1 =~= s2);
    }
}

} // verus!

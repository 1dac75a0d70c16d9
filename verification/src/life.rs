//! The automaton's rules: the Chebyshev neighborhood, the birth and
//! survival tables, and what it means for a coordinate to be alive in
//! the next generation.

use vstd::prelude::*;

use crate::coord::in_cells;
use crate::coord::Cell;
use crate::coord::CellCoord;

verus! {

/// `a` lies in the Chebyshev-distance-1 neighborhood of `b`: the two
/// coordinates differ by at most one on each axis and are not equal.
/// The relation is symmetric, and it only ever relates representable
/// coordinates — a cell pinned to an extreme value on an axis simply
/// has fewer neighbors there.
pub open spec fn is_neighbor(a: CellCoord, b: CellCoord) -> bool {
    &&& !(a == b)
    &&& -1 <= a.x - b.x <= 1
    &&& -1 <= a.y - b.y <= 1
}

/// How many cells of `cells` are live neighbors of `c`.
pub open spec fn live_neighbor_count(cells: Seq<Cell>, c: CellCoord) -> nat
    decreases cells.len(),
{
    if cells.len() == 0 {
        0
    } else {
        live_neighbor_count(cells.drop_last(), c) + (if is_neighbor(cells.last().coord, c) {
            1nat
        } else {
            0nat
        })
    }
}

/// The birth rule table: a dead coordinate comes alive exactly on three
/// live neighbors.
pub open spec fn spec_birth(neighbors: nat) -> bool {
    neighbors == 3
}

/// The survival rule table: a live cell stays alive exactly on two or
/// three live neighbors.
pub open spec fn spec_survival(neighbors: nat) -> bool {
    neighbors == 2 || neighbors == 3
}

/// The birth rule table, indexed by live-neighbor count.
pub fn birth_rule(neighbors: usize) -> (alive: bool)
    ensures
        alive == spec_birth(neighbors as nat),
{
    neighbors == 3
}

/// The survival rule table, indexed by live-neighbor count.
pub fn survival_rule(neighbors: usize) -> (alive: bool)
    ensures
        alive == spec_survival(neighbors as nat),
{
    neighbors == 2 || neighbors == 3
}

/// Whether coordinate `c` is alive in the generation after `cells`:
/// live cells go by the survival table, dead coordinates by the birth
/// table, both applied to the live-neighbor count.
pub open spec fn alive_next(cells: Seq<Cell>, c: CellCoord) -> bool {
    if in_cells(cells, c) {
        spec_survival(live_neighbor_count(cells, c))
    } else {
        spec_birth(live_neighbor_count(cells, c))
    }
}

/// A coordinate with no live cell in its neighborhood has a
/// live-neighbor count of zero.
pub proof fn lemma_no_neighbors_count_zero(cells: Seq<Cell>, c: CellCoord)
    requires
        forall|k: int| 0 <= k < cells.len() ==> !is_neighbor(#[trigger] cells[k].coord, c),
    ensures
        live_neighbor_count(cells, c) == 0,
    decreases cells.len(),
{
    if cells.len() > 0 {
        lemma_no_neighbors_count_zero(cells.drop_last(), c);
    }
}

/// Isolation death: a live cell with no other live cell within
/// Chebyshev distance one is absent from the next generation.
pub proof fn lemma_isolation_death(cells: Seq<Cell>, c: CellCoord)
    requires
        in_cells(cells, c),
        forall|k: int| 0 <= k < cells.len() ==> !is_neighbor(#[trigger] cells[k].coord, c),
    ensures
        !alive_next(cells, c),
{
    lemma_no_neighbors_count_zero(cells, c);
}

/// The step's contract then excludes such an isolated cell from the
/// stepped generation: it never enters any neighbor run, so it is
/// simply absent afterwards.
pub proof fn lemma_isolated_cell_absent(before: Seq<Cell>, after: Seq<Cell>, c: CellCoord)
    requires
        in_cells(before, c),
        forall|k: int| 0 <= k < before.len() ==> !is_neighbor(#[trigger] before[k].coord, c),
        forall|d: CellCoord| #[trigger] in_cells(after, d) <==> alive_next(before, d),
    ensures
        !in_cells(after, c),
{
    lemma_isolation_death(before, c);
}

/// Idempotent emptiness: any generation that satisfies the step's
/// contract against an empty colony is itself empty.
pub proof fn lemma_empty_step_empty(before: Seq<Cell>, after: Seq<Cell>)
    requires
        before.len() == 0,
        forall|c: CellCoord| #[trigger] in_cells(after, c) <==> alive_next(before, c),
    ensures
        after.len() == 0,
{
    if after.len() > 0 {
        let c = after[0].coord;
        assert(in_cells(after, c));
        assert(live_neighbor_count(before, c) == 0);
    }
}

/// Boundary clamp: the neighbor relation never leaves the grid. A cell
/// pinned to an extreme value on an axis has neighbors only at that
/// value or one step toward the interior — there is no coordinate past
/// the representable range for a neighbor to sit at.
pub proof fn lemma_boundary_clamp(p: CellCoord, c: CellCoord)
    requires
        is_neighbor(p, c),
    ensures
        p.x == i32::MAX ==> c.x == p.x || c.x == p.x - 1,
        p.x == i32::MIN ==> c.x == p.x || c.x == p.x + 1,
        p.y == i32::MAX ==> c.y == p.y || c.y == p.y - 1,
        p.y == i32::MIN ==> c.y == p.y || c.y == p.y + 1,
{
}

} // verus!

//! The colony and the generation step.
//!
//! A colony holds the live-cell sequence plus two scratch buffers that
//! the step reuses from call to call: the next-generation cells being
//! built, and the workspace of neighbor coordinates.

use vstd::prelude::*;

use crate::coord::coord_le;
use crate::coord::coord_less;
use crate::coord::coord_lt;
use crate::coord::in_cells;
use crate::coord::sorted_le;
use crate::coord::strictly_sorted;
use crate::coord::Cell;
use crate::coord::CellCoord;
use crate::count::count_occ;
use crate::count::lemma_count_occ_absent;
use crate::count::lemma_count_occ_at_least_one;
use crate::count::lemma_count_occ_run;
use crate::life::alive_next;
use crate::life::birth_rule;
use crate::life::is_neighbor;
use crate::life::live_neighbor_count;
use crate::life::survival_rule;
use crate::sort::sort_coords;

verus! {

broadcast use crate::count::lemma_count_occ_push;

/// The live-cell set plus reusable scratch buffers.
///
/// `cells` is the current generation, kept strictly sorted by the
/// coordinate order with no duplicate coordinates. `new_cells` and
/// `neighbor_coords` carry no meaning between steps; they are cleared
/// at the start of each step and exist only to amortize allocation.
pub struct Colony {
    pub cells: Vec<Cell>,
    pub new_cells: Vec<Cell>,
    pub neighbor_coords: Vec<CellCoord>,
}

impl Colony {
    /// An empty colony: no live cells, empty scratch buffers.
    pub fn new() -> (colony: Colony)
        ensures
            colony.cells@.len() == 0,
            colony.new_cells@.len() == 0,
            colony.neighbor_coords@.len() == 0,
    {
        Colony { cells: Vec::new(), new_cells: Vec::new(), neighbor_coords: Vec::new() }
    }

    /// Replaces the live-cell set with the given coordinates, sorted
    /// and deduplicated: the conversion a driver owes an arbitrary seed
    /// before the first generation step.
    pub fn seed(&mut self, coords: &Vec<CellCoord>)
        ensures
            strictly_sorted(final(self).cells@),
            forall|c: CellCoord| #[trigger]
                in_cells(final(self).cells@, c) <==> coords@.contains(c),
    {
        self.cells.clear();
        let ghost in_seq = coords@;
        let mut i: usize = 0;
        while i < coords.len()
            invariant
                coords@ == in_seq,
                i <= in_seq.len(),
                strictly_sorted(self.cells@),
                forall|c: CellCoord| #[trigger]
                    in_cells(self.cells@, c) <==> in_seq.take(i as int).contains(c),
            decreases in_seq.len() - i,
        {
            let x = coords[i];
            let mut j: usize = 0;
            while j < self.cells.len() && coord_less(self.cells[j].coord, x)
                invariant
                    j <= self.cells@.len(),
                    forall|k: int| 0 <= k < j ==> coord_lt(#[trigger] self.cells@[k].coord, x),
                decreases self.cells@.len() - j,
            {
                j += 1;
            }
            let ghost pre = self.cells@;
            let already_live = j < self.cells.len() && self.cells[j].coord == x;
            if !already_live {
                self.cells.insert(j, Cell { coord: x });
            }
            proof {
                let ghost stepped = in_seq.take(i as int + 1);
                assert(stepped =~= in_seq.take(i as int).push(in_seq[i as int]));
                let front = pre.subrange(0, j as int);
                let back = pre.subrange(j as int, pre.len() as int);
                if !already_live {
                    assert(self.cells@ =~= front.push(Cell { coord: x }) + back);
                    assert forall|p: int, q: int|
                        0 <= p < q < self.cells@.len() implies coord_lt(
                        self.cells@[p].coord,
                        self.cells@[q].coord,
                    ) by {
                        if (j as int) < pre.len() {
                            assert(coord_lt(x, pre[j as int].coord));
                        }
                        if p < j {
                            assert(self.cells@[p] == pre[p]);
                        } else if p == j {
                            assert(self.cells@[p] == front.push(Cell { coord: x })[p]);
                        } else {
                            assert(self.cells@[p] == back[p - j - 1]);
                            assert(self.cells@[p] == pre[p - 1]);
                        }
                        if q < j {
                            assert(self.cells@[q] == pre[q]);
                            assert(coord_lt(pre[p].coord, pre[q].coord));
                        } else if q == j {
                            assert(self.cells@[q] == front.push(Cell { coord: x })[q]);
                        } else {
                            assert(self.cells@[q] == back[q - j - 1]);
                            assert(self.cells@[q] == pre[q - 1]);
                            if j < q - 1 {
                                assert(coord_lt(pre[j as int].coord, pre[q - 1].coord));
                            }
                            if j < p {
                                assert(coord_lt(pre[p - 1].coord, pre[q - 1].coord) || p == q - 1);
                            }
                        }
                    }
                }
                assert forall|c: CellCoord| #[trigger]
                    in_cells(self.cells@, c) <==> stepped.contains(c) by {
                    if already_live {
                        if stepped.contains(c) {
                            let k = choose|k: int|
                                0 <= k < stepped.len() && stepped[k] == c;
                            if k == i {
                                assert(pre[j as int].coord == x);
                                assert(in_cells(pre, x));
                            } else {
                                assert(in_seq.take(i as int)[k] == c);
                            }
                        }
                        if in_cells(self.cells@, c) {
                            assert(in_seq.take(i as int).contains(c));
                            let k = choose|k: int|
                                0 <= k < in_seq.take(i as int).len() && in_seq.take(i as int)[k]
                                    == c;
                            assert(stepped[k] == c);
                        }
                    } else {
                        if in_cells(self.cells@, c) {
                            let k = choose|k: int|
                                0 <= k < self.cells@.len() && self.cells@[k].coord == c;
                            if k < j {
                                assert(self.cells@[k] == pre[k]);
                                assert(in_cells(pre, c));
                            } else if k == j {
                                assert(self.cells@[k] == front.push(Cell { coord: x })[k]);
                                assert(c == x);
                                assert(stepped[i as int] == x);
                            } else {
                                assert(self.cells@[k] == back[k - j - 1]);
                                assert(self.cells@[k] == pre[k - 1]);
                                assert(in_cells(pre, c));
                            }
                            if in_cells(pre, c) {
                                assert(in_seq.take(i as int).contains(c));
                                let m = choose|m: int|
                                    0 <= m < in_seq.take(i as int).len() && in_seq.take(
                                        i as int,
                                    )[m] == c;
                                assert(stepped[m] == c);
                            }
                        }
                        if stepped.contains(c) {
                            let k = choose|k: int|
                                0 <= k < stepped.len() && stepped[k] == c;
                            if k == i {
                                assert(c == x);
                                assert(self.cells@[j as int] == front.push(Cell { coord: x })[
                                    j as int]);
                                assert(self.cells@[j as int].coord == x);
                            } else {
                                assert(in_seq.take(i as int)[k] == c);
                                assert(in_seq.take(i as int).contains(c));
                                assert(in_cells(pre, c));
                                let m = choose|m: int| 0 <= m < pre.len() && pre[m].coord == c;
                                if m < j {
                                    assert(self.cells@[m] == pre[m]);
                                } else {
                                    assert(self.cells@[m + 1] == back[m - j]);
                                    assert(self.cells@[m + 1] == pre[m]);
                                }
                            }
                        }
                    }
                }
            }
            i += 1;
        }
        proof {
            assert(in_seq.take(in_seq.len() as int) =~= in_seq);
        }
    }
}

/// How many of the up-to-eight neighbor offsets of `p` stay on the
/// grid. Offsets that would move past the representable range on an
/// axis are skipped, so a coordinate pinned to an extreme value has
/// fewer candidate neighbors.
pub open spec fn neighbor_slot_count(p: CellCoord) -> nat {
    (if p.x != i32::MIN && p.y != i32::MIN {
        1nat
    } else {
        0nat
    }) + (if p.x != i32::MIN {
        1nat
    } else {
        0nat
    }) + (if p.x != i32::MIN && p.y != i32::MAX {
        1nat
    } else {
        0nat
    }) + (if p.y != i32::MIN {
        1nat
    } else {
        0nat
    }) + (if p.y != i32::MAX {
        1nat
    } else {
        0nat
    }) + (if p.x != i32::MAX && p.y != i32::MIN {
        1nat
    } else {
        0nat
    }) + (if p.x != i32::MAX {
        1nat
    } else {
        0nat
    }) + (if p.x != i32::MAX && p.y != i32::MAX {
        1nat
    } else {
        0nat
    })
}

/// At the grid's edges fewer neighbor offsets stay on the grid: eight
/// in the interior, five along an edge, three in a corner.
pub proof fn lemma_boundary_slot_count(p: CellCoord)
    ensures
        neighbor_slot_count(p) <= 8,
        i32::MIN < p.x < i32::MAX && i32::MIN < p.y < i32::MAX ==> neighbor_slot_count(p) == 8,
        (p.x == i32::MIN || p.x == i32::MAX) && i32::MIN < p.y < i32::MAX
            ==> neighbor_slot_count(p) == 5,
        i32::MIN < p.x < i32::MAX && (p.y == i32::MIN || p.y == i32::MAX)
            ==> neighbor_slot_count(p) == 5,
        (p.x == i32::MIN || p.x == i32::MAX) && (p.y == i32::MIN || p.y == i32::MAX)
            ==> neighbor_slot_count(p) == 3,
{
}

/// Appends to `nc` every on-grid neighbor of `p`, one entry each: the
/// occurrence count of a coordinate rises by one exactly when it is a
/// neighbor of `p`, and no offset past the representable range is ever
/// formed.
pub fn push_neighbor_coords(nc: &mut Vec<CellCoord>, p: CellCoord)
    ensures
        final(nc)@.len() == old(nc)@.len() + neighbor_slot_count(p),
        forall|c: CellCoord| #[trigger]
            count_occ(final(nc)@, c) == count_occ(old(nc)@, c) + (if is_neighbor(p, c) {
                1nat
            } else {
                0nat
            }),
{
    let ghost s0 = nc@;
    let not_min_x = p.x != i32::MIN;
    let not_max_x = p.x != i32::MAX;
    let not_min_y = p.y != i32::MIN;
    let not_max_y = p.y != i32::MAX;

    if not_min_x && not_min_y {
        nc.push(CellCoord { x: p.x - 1, y: p.y - 1 });
    }
    if not_min_x {
        nc.push(CellCoord { x: p.x - 1, y: p.y });
    }
    if not_min_x && not_max_y {
        nc.push(CellCoord { x: p.x - 1, y: p.y + 1 });
    }
    if not_min_y {
        nc.push(CellCoord { x: p.x, y: p.y - 1 });
    }
    if not_max_y {
        nc.push(CellCoord { x: p.x, y: p.y + 1 });
    }
    if not_max_x && not_min_y {
        nc.push(CellCoord { x: p.x + 1, y: p.y - 1 });
    }
    if not_max_x {
        nc.push(CellCoord { x: p.x + 1, y: p.y });
    }
    if not_max_x && not_max_y {
        nc.push(CellCoord { x: p.x + 1, y: p.y + 1 });
    }

    proof {
        assert forall|c: CellCoord| #[trigger]
            count_occ(nc@, c) == count_occ(s0, c) + (if is_neighbor(p, c) {
                1nat
            } else {
                0nat
            }) by {
            // A coordinate adjacent to `p` is on the grid, so the one
            // offset leading to it was not skipped; distinct offsets
            // lead to distinct coordinates, so no entry is added twice.
            assert(c.x >= i32::MIN && c.x <= i32::MAX);
            assert(c.y >= i32::MIN && c.y <= i32::MAX);
        }
    }
}

/// Advances the colony by one generation, in place.
///
/// Given live cells sorted strictly ascending by the coordinate order,
/// replaces them with exactly the coordinates the rule tables keep or
/// bring alive, again strictly sorted. The two scratch buffers are
/// recycled: the previous live-cell buffer becomes the next call's
/// scratch space.
pub fn run_next_generation(colony: &mut Colony)
    requires
        strictly_sorted(old(colony).cells@),
    ensures
        strictly_sorted(final(colony).cells@),
        forall|c: CellCoord|
            #![trigger in_cells(final(colony).cells@, c)]
            #![trigger alive_next(old(colony).cells@, c)]
            in_cells(final(colony).cells@, c) <==> alive_next(old(colony).cells@, c),
{
    // Take the buffers out of the colony so the phases below can work
    // on them independently.
    let mut cells: Vec<Cell> = Vec::new();
    let mut new_cells: Vec<Cell> = Vec::new();
    let mut neighbor_coords: Vec<CellCoord> = Vec::new();
    core::mem::swap(&mut cells, &mut colony.cells);
    core::mem::swap(&mut new_cells, &mut colony.new_cells);
    core::mem::swap(&mut neighbor_coords, &mut colony.neighbor_coords);

    let ghost c_seq = cells@;

    new_cells.clear();
    neighbor_coords.clear();

    // Phase 1: for every live cell, generate its on-grid neighbor
    // offsets. Afterwards a coordinate occurs in the workspace once per
    // live neighbor it has.
    let mut i: usize = 0;
    while i < cells.len()
        invariant
            cells@ == c_seq,
            i <= c_seq.len(),
            forall|c: CellCoord| #[trigger]
                count_occ(neighbor_coords@, c) == live_neighbor_count(
                    c_seq.take(i as int),
                    c,
                ),
        decreases c_seq.len() - i,
    {
        let ghost before = neighbor_coords@;
        push_neighbor_coords(&mut neighbor_coords, cells[i].coord);
        proof {
            assert(c_seq.take(i + 1).drop_last() =~= c_seq.take(i as int));
            assert(c_seq.take(i + 1).last() == c_seq[i as int]);
            assert forall|c: CellCoord| #[trigger]
                count_occ(neighbor_coords@, c) == live_neighbor_count(
                    c_seq.take(i + 1),
                    c,
                ) by {
                assert(count_occ(before, c) == live_neighbor_count(c_seq.take(i as int), c));
            }
        }
        i += 1;
    }
    proof {
        assert(c_seq.take(c_seq.len() as int) =~= c_seq);
    }

    // Phase 2: sort the workspace so equal coordinates form contiguous
    // runs; the run lengths are the live-neighbor counts.
    let sorted = sort_coords(&neighbor_coords);
    neighbor_coords = sorted;

    let ghost n_seq = neighbor_coords@;

    // Phase 3: scan the runs in ascending order, keep a monotone cursor
    // into the live cells to decide whether each run's coordinate was
    // alive, and apply the rule tables. Runs arrive in ascending order,
    // so the next generation is built already sorted.
    let n: usize = neighbor_coords.len();
    let mut cell_idx: usize = 0;
    let mut j2: usize = 0;
    proof {
        // Coordinates below the first run never occur in the workspace,
        // so they have no live neighbor and stay dead.
        assert forall|c: CellCoord|
            (n_seq.len() == 0 || coord_lt(c, n_seq[0])) implies !alive_next(c_seq, c) by {
            assert forall|k: int| 0 <= k < n_seq.len() implies n_seq[k] != c by {
                assert(coord_le(n_seq[0], n_seq[k]));
            }
            lemma_count_occ_absent(n_seq, c);
            assert(live_neighbor_count(c_seq, c) == 0);
        }
    }
    while j2 < n
        invariant
            neighbor_coords@ == n_seq,
            cells@ == c_seq,
            n == n_seq.len(),
            sorted_le(n_seq),
            strictly_sorted(c_seq),
            forall|c: CellCoord| #[trigger]
                count_occ(n_seq, c) == live_neighbor_count(c_seq, c),
            j2 <= n,
            0 < j2 < n ==> n_seq[j2 - 1] != n_seq[j2 as int],
            cell_idx <= c_seq.len(),
            c_seq.len() > 0 ==> cell_idx < c_seq.len(),
            j2 < n ==> forall|k: int|
                0 <= k < cell_idx ==> coord_lt(#[trigger] c_seq[k].coord, n_seq[j2 as int]),
            strictly_sorted(new_cells@),
            j2 < n ==> forall|k: int|
                0 <= k < new_cells@.len() ==> coord_lt(
                    #[trigger] new_cells@[k].coord,
                    n_seq[j2 as int],
                ),
            forall|c: CellCoord|
                (j2 == n || coord_lt(c, n_seq[j2 as int])) ==> (#[trigger] in_cells(
                    new_cells@,
                    c,
                ) <==> alive_next(c_seq, c)),
        decreases n - j2,
    {
        let j1: usize = j2;
        j2 += 1;

        // Extend the run over all equal coordinates.
        while j2 < n && neighbor_coords[j1] == neighbor_coords[j2]
            invariant
                neighbor_coords@ == n_seq,
                n == n_seq.len(),
                j1 < j2 <= n,
                forall|k: int| j1 <= k < j2 ==> n_seq[k] == n_seq[j1 as int],
            decreases n - j2,
        {
            j2 += 1;
        }

        // A run exists, so some coordinate has a live neighbor, so
        // there is at least one live cell and the cursor is in range.
        proof {
            lemma_count_occ_at_least_one(n_seq, j1 as int);
            if c_seq.len() == 0 {
                assert(live_neighbor_count(c_seq, n_seq[j1 as int]) == 0);
            }
        }

        // Advance the live-cell cursor to the first cell at or past the
        // run's coordinate, capped at the last cell.
        while coord_less(cells[cell_idx].coord, neighbor_coords[j1]) && cell_idx < cells.len() - 1
            invariant
                neighbor_coords@ == n_seq,
                cells@ == c_seq,
                n == n_seq.len(),
                j1 < n,
                cell_idx < c_seq.len(),
                forall|k: int|
                    0 <= k < cell_idx ==> coord_lt(#[trigger] c_seq[k].coord, n_seq[j1 as int]),
            decreases c_seq.len() - cell_idx,
        {
            cell_idx += 1;
        }

        let r = neighbor_coords[j1];
        let num_neighbors: usize = j2 - j1;
        let was_alive = cells[cell_idx].coord == r;

        proof {
            // The cursor decides liveness: cells below it sit before
            // the run coordinate, cells above it past it.
            if !was_alive {
                assert forall|k: int| 0 <= k < c_seq.len() implies c_seq[k].coord != r by {
                    if k > cell_idx {
                        assert(coord_lt(c_seq[cell_idx as int].coord, c_seq[k].coord));
                    }
                }
            }
            assert(was_alive == in_cells(c_seq, r));

            // The run is maximal on both sides, so its length is the
            // full occurrence count: the live-neighbor count.
            lemma_count_occ_run(n_seq, j1 as int, j2 as int);
            assert(live_neighbor_count(c_seq, r) == (j2 - j1) as nat);
        }

        let stays_alive = if was_alive {
            survival_rule(num_neighbors)
        } else {
            birth_rule(num_neighbors)
        };

        let ghost prev_new = new_cells@;
        if stays_alive {
            new_cells.push(Cell { coord: r });
        }

        proof {
            assert(stays_alive == alive_next(c_seq, r));

            // Re-establish the scan invariants for the next run.
            if j2 < n {
                assert(n_seq[j2 - 1] == r);
                assert(coord_le(n_seq[j1 as int], n_seq[j2 as int]));
                assert(coord_lt(r, n_seq[j2 as int]));
                assert forall|k: int| 0 <= k < cell_idx implies coord_lt(
                    #[trigger] c_seq[k].coord,
                    n_seq[j2 as int],
                ) by {
                    assert(coord_lt(c_seq[k].coord, n_seq[j1 as int]));
                }
                assert forall|k: int| 0 <= k < new_cells@.len() implies coord_lt(
                    #[trigger] new_cells@[k].coord,
                    n_seq[j2 as int],
                ) by {
                    if k < prev_new.len() {
                        assert(new_cells@[k] == prev_new[k]);
                        assert(coord_lt(prev_new[k].coord, r));
                    } else {
                        assert(new_cells@[k].coord == r);
                    }
                }
            }
            if stays_alive {
                assert forall|p: int, q: int|
                    0 <= p < q < new_cells@.len() implies coord_lt(
                    new_cells@[p].coord,
                    new_cells@[q].coord,
                ) by {
                    assert(new_cells@[p] == prev_new[p]);
                    if q == new_cells@.len() - 1 {
                        assert(new_cells@[q].coord == r);
                        assert(coord_lt(prev_new[p].coord, r));
                    } else {
                        assert(new_cells@[q] == prev_new[q]);
                    }
                }
            }
            assert forall|c: CellCoord|
                (j2 == n || coord_lt(c, n_seq[j2 as int])) implies (#[trigger] in_cells(
                new_cells@,
                c,
            ) <==> alive_next(c_seq, c)) by {
                if coord_lt(c, r) {
                    // Decided by an earlier run; the push cannot affect
                    // membership below the run coordinate.
                    assert(in_cells(prev_new, c) <==> alive_next(c_seq, c));
                    if in_cells(new_cells@, c) {
                        let k = choose|k: int|
                            0 <= k < new_cells@.len() && new_cells@[k].coord == c;
                        assert(new_cells@[k].coord == c);
                        assert(k < prev_new.len());
                        assert(prev_new[k].coord == c);
                    }
                    if in_cells(prev_new, c) {
                        let k = choose|k: int| 0 <= k < prev_new.len() && prev_new[k].coord == c;
                        assert(new_cells@[k].coord == c);
                    }
                } else if c == r {
                    if stays_alive {
                        assert(new_cells@[new_cells@.len() - 1].coord == r);
                        assert(in_cells(new_cells@, r));
                    } else {
                        if in_cells(new_cells@, r) {
                            let k = choose|k: int|
                                0 <= k < new_cells@.len() && new_cells@[k].coord == r;
                            assert(coord_lt(new_cells@[k].coord, r));
                        }
                    }
                } else {
                    // Between this run and the next one: no occurrence,
                    // no live neighbor, so the coordinate stays dead
                    // and was never appended.
                    assert(coord_lt(r, c));
                    assert forall|k: int| 0 <= k < n_seq.len() implies n_seq[k] != c by {
                        if k < j1 {
                            assert(coord_le(n_seq[k], n_seq[j1 as int]));
                        } else if k < j2 {
                            assert(n_seq[k] == r);
                        } else {
                            assert(coord_le(n_seq[j2 as int], n_seq[k]));
                        }
                    }
                    lemma_count_occ_absent(n_seq, c);
                    assert(live_neighbor_count(c_seq, c) == 0);
                    assert(!alive_next(c_seq, c));
                    if in_cells(new_cells@, c) {
                        let k = choose|k: int|
                            0 <= k < new_cells@.len() && new_cells@[k].coord == c;
                        if k < prev_new.len() {
                            assert(coord_lt(prev_new[k].coord, r));
                        }
                    }
                }
            }
        }
    }

    // Swap the freshly built generation in; the previous live-cell
    // buffer becomes scratch space for the next call.
    *colony = Colony { cells: new_cells, new_cells: cells, neighbor_coords };
}

} // verus!

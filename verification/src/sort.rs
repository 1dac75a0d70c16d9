//! Sorting the neighbor workspace.
//!
//! The generation step sorts the multiset of generated neighbor
//! coordinates so that equal coordinates form contiguous runs. The sort
//! is an insertion sort whose contract fixes both the ordering of the
//! result and that no occurrence is lost or invented.

use vstd::prelude::*;

use crate::coord::coord_le;
use crate::coord::coord_less_eq;
use crate::coord::coord_lt;
use crate::coord::sorted_le;
use crate::coord::CellCoord;
use crate::count::count_occ;
use crate::count::lemma_count_occ_insert;

verus! {

/// Sorts `input` ascending by the coordinate order. The result holds
/// exactly the occurrences of the input, rearranged.
pub fn sort_coords(input: &Vec<CellCoord>) -> (out: Vec<CellCoord>)
    ensures
        sorted_le(out@),
        out@.len() == input@.len(),
        forall|c: CellCoord| #[trigger] count_occ(out@, c) == count_occ(input@, c),
{
    let ghost in_seq = input@;
    let mut out: Vec<CellCoord> = Vec::new();
    let mut i: usize = 0;
    while i < input.len()
        invariant
            input@ == in_seq,
            i <= in_seq.len(),
            out@.len() == i,
            sorted_le(out@),
            forall|c: CellCoord| #[trigger]
                count_occ(out@, c) == count_occ(in_seq.take(i as int), c),
        decreases in_seq.len() - i,
    {
        let x = input[i];
        let mut j: usize = 0;
        while j < out.len() && coord_less_eq(out[j], x)
            invariant
                j <= out@.len(),
                forall|k: int| 0 <= k < j ==> coord_le(out@[k], x),
            decreases out@.len() - j,
        {
            j += 1;
        }
        let ghost pre = out@;
        out.insert(j, x);
        proof {
            lemma_count_occ_insert(pre, j as int, x);
            assert(in_seq.take(i + 1).drop_last() =~= in_seq.take(i as int));
            assert(in_seq.take(i + 1).last() == x);
            // The insertion point splits the old sequence: entries
            // before it are at most `x`, entries after it exceed `x`.
            let front = pre.subrange(0, j as int);
            let back = pre.subrange(j as int, pre.len() as int);
            assert(out@ =~= front.push(x) + back);
            assert forall|p: int, q: int| 0 <= p < q < out@.len() implies coord_le(
                out@[p],
                out@[q],
            ) by {
                if p < j {
                    assert(out@[p] == front[p]);
                    assert(out@[p] == pre[p]);
                    assert(coord_le(pre[p], x));
                } else if p == j {
                    assert(out@[p] == front.push(x)[p]);
                    assert(out@[p] == x);
                } else {
                    assert(out@[p] == back[p - j - 1]);
                    assert(out@[p] == pre[p - 1]);
                }
                if q < j {
                    assert(out@[q] == front[q]);
                    assert(out@[q] == pre[q]);
                    assert(coord_le(pre[p], pre[q]));
                } else if q == j {
                    assert(out@[q] == front.push(x)[q]);
                    assert(out@[q] == x);
                } else {
                    assert(out@[q] == back[q - j - 1]);
                    assert(out@[q] == pre[q - 1]);
                    assert(coord_lt(x, pre[j as int]));
                    if j < q - 1 {
                        assert(coord_le(pre[j as int], pre[q - 1]));
                    }
                    if j < p {
                        assert(coord_le(pre[p - 1], pre[q - 1]) || p == q - 1);
                    }
                }
            }
        }
        i += 1;
    }
    proof {
        assert(in_seq.take(in_seq.len() as int) =~= in_seq);
    }
    out
}

} // verus!

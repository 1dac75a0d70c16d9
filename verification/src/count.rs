//! Occurrence counting over coordinate sequences.
//!
//! The neighbor workspace is a multiset of coordinates represented as a
//! sequence: a coordinate occurs once for every live cell it is
//! adjacent to. `count_occ` is the spec-level occurrence count that the
//! generation step's contracts are stated over.

use vstd::prelude::*;

use crate::coord::coord_le;
use crate::coord::coord_lt;
use crate::coord::sorted_le;
use crate::coord::CellCoord;

verus! {

/// How many entries of `s` equal `c`.
pub open spec fn count_occ(s: Seq<CellCoord>, c: CellCoord) -> nat
    decreases s.len(),
{
    if s.len() == 0 {
        0
    } else {
        count_occ(s.drop_last(), c) + (if s.last() == c {
            1nat
        } else {
            0nat
        })
    }
}

/// Appending one element raises the count of that element by one and
/// leaves every other count unchanged.
pub broadcast proof fn lemma_count_occ_push(s: Seq<CellCoord>, x: CellCoord, c: CellCoord)
    ensures
        #[trigger] count_occ(s.push(x), c) == count_occ(s, c) + (if x == c {
            1nat
        } else {
            0nat
        }),
{
    assert(s.push(x).drop_last() =~= s);
    assert(s.push(x).last() == x);
}

/// Occurrence counts add up over concatenation.
pub proof fn lemma_count_occ_append(a: Seq<CellCoord>, b: Seq<CellCoord>, c: CellCoord)
    ensures
        count_occ(a + b, c) == count_occ(a, c) + count_occ(b, c),
    decreases b.len(),
{
    if b.len() == 0 {
        assert(a + b =~= a);
    } else {
        assert((a + b).drop_last() =~= a + b.drop_last());
        assert((a + b).last() == b.last());
        lemma_count_occ_append(a, b.drop_last(), c);
    }
}

/// A coordinate that appears nowhere in `s` has count zero.
pub proof fn lemma_count_occ_absent(s: Seq<CellCoord>, c: CellCoord)
    requires
        forall|k: int| 0 <= k < s.len() ==> s[k] != c,
    ensures
        count_occ(s, c) == 0,
    decreases s.len(),
{
    if s.len() > 0 {
        lemma_count_occ_absent(s.drop_last(), c);
    }
}

/// A sequence made of `c` alone has count equal to its length.
pub proof fn lemma_count_occ_uniform(s: Seq<CellCoord>, c: CellCoord)
    requires
        forall|k: int| 0 <= k < s.len() ==> s[k] == c,
    ensures
        count_occ(s, c) == s.len(),
    decreases s.len(),
{
    if s.len() > 0 {
        lemma_count_occ_uniform(s.drop_last(), c);
    }
}

/// Every entry of `s` is counted at least once.
pub proof fn lemma_count_occ_at_least_one(s: Seq<CellCoord>, k: int)
    requires
        0 <= k < s.len(),
    ensures
        count_occ(s, s[k]) >= 1,
    decreases s.len(),
{
    if k + 1 == s.len() {
        assert(s.last() == s[k]);
    } else {
        lemma_count_occ_at_least_one(s.drop_last(), k);
    }
}

/// Inserting an element raises its count by one and leaves every other
/// count unchanged.
pub proof fn lemma_count_occ_insert(s: Seq<CellCoord>, i: int, x: CellCoord)
    requires
        0 <= i <= s.len(),
    ensures
        forall|c: CellCoord| #[trigger]
            count_occ(s.insert(i, x), c) == count_occ(s, c) + (if x == c {
                1nat
            } else {
                0nat
            }),
{
    let front = s.subrange(0, i);
    let back = s.subrange(i, s.len() as int);
    assert(s.insert(i, x) =~= front.push(x) + back);
    assert(s =~= front + back);
    assert forall|c: CellCoord| #[trigger]
        count_occ(s.insert(i, x), c) == count_occ(s, c) + (if x == c {
            1nat
        } else {
            0nat
        }) by {
        lemma_count_occ_append(front.push(x), back, c);
        lemma_count_occ_append(front, back, c);
        lemma_count_occ_push(front, x, c);
    }
}

/// In a sorted sequence, a maximal run of one coordinate accounts for
/// every occurrence of it: the count equals the run's length.
pub proof fn lemma_count_occ_run(s: Seq<CellCoord>, j1: int, j2: int)
    requires
        sorted_le(s),
        0 <= j1 < j2 <= s.len(),
        forall|k: int| j1 <= k < j2 ==> s[k] == s[j1],
        j1 > 0 ==> s[j1 - 1] != s[j1],
        j2 < s.len() ==> s[j2] != s[j1],
    ensures
        count_occ(s, s[j1]) == j2 - j1,
{
    let r = s[j1];
    let front = s.subrange(0, j1);
    let mid = s.subrange(j1, j2);
    let back = s.subrange(j2, s.len() as int);
    assert(s =~= (front + mid) + back);
    lemma_count_occ_append(front + mid, back, r);
    lemma_count_occ_append(front, mid, r);
    assert forall|k: int| 0 <= k < front.len() implies front[k] != r by {
        // Entries before the run are at most the run's left border,
        // which differs from the run coordinate, so they sit strictly
        // below it.
        assert(coord_le(s[k], s[j1 - 1]) || k == j1 - 1);
        assert(coord_le(s[j1 - 1], s[j1]));
    }
    lemma_count_occ_absent(front, r);
    lemma_count_occ_uniform(mid, r);
    assert forall|k: int| 0 <= k < back.len() implies back[k] != r by {
        // Entries past the run sit at or above its right border, which
        // itself lies strictly above the run coordinate.
        assert(back[k] == s[j2 + k]);
        assert(coord_le(s[j1], s[j2]));
        assert(k > 0 ==> coord_le(s[j2], s[j2 + k]));
        assert(coord_lt(r, s[j2 + k]));
    }
    lemma_count_occ_absent(back, r);
}

} // verus!

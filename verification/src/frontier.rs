use vstd::prelude::*;
use crate::node::Node;

verus! {

/// Ordering of frontier entries: smaller tentative distance first, ties
/// broken deterministically by tile identifier.
pub open spec fn entry_le(a: Node, b: Node) -> bool {
    a.distance < b.distance || (a.distance == b.distance && a.tile_id <= b.tile_id)
}

/// Strict ordering of frontier entries under the same key.
pub open spec fn entry_lt(a: Node, b: Node) -> bool {
    a.distance < b.distance || (a.distance == b.distance && a.tile_id < b.tile_id)
}

/// The index of the minimum entry from position `k` on, with `best` the
/// index of the minimum seen so far: a left-to-right scan that keeps the
/// earliest occurrence of the minimal key.
pub open spec fn min_from(f: Seq<Node>, best: int, k: int) -> int
    decreases f.len() - k,
{
    if k < 0 || k >= f.len() {
        best
    } else {
        min_from(f, if entry_lt(f[k], f[best]) { k } else { best }, k + 1)
    }
}

/// The index the frontier pops next: the earliest entry with the minimal
/// (distance, tile identifier) key.
pub open spec fn min_index(f: Seq<Node>) -> int {
    min_from(f, 0, 1)
}

/// Removes and returns the minimum entry of the frontier under `entry_le`:
/// exactly the entry at `min_index`, so the choice is deterministic.
pub fn pop_min(frontier: &mut Vec<Node>) -> (out: (Node, Ghost<int>))
    requires
        old(frontier)@.len() > 0,
    ensures
        out.1@ == min_index(old(frontier)@),
        0 <= out.1@ < old(frontier)@.len(),
        out.0 == old(frontier)@[out.1@],
        final(frontier)@ == old(frontier)@.remove(out.1@),
        forall|k: int| 0 <= k < old(frontier)@.len() ==> entry_le(out.0, #[trigger] old(
            frontier,
        )@[k]),
{
    let mut best: usize = 0;
    let mut k: usize = 1;
    while k < frontier.len()
        invariant
            frontier@ == old(frontier)@,
            1 <= k <= frontier@.len(),
            best < k,
            min_from(frontier@, best as int, k as int) == min_index(frontier@),
            forall|m: int| 0 <= m < k ==> entry_le(frontier@[best as int], #[trigger] frontier@[m]),
        decreases frontier@.len() - k,
    {
        let cand: Node = frontier[k];
        let cur: Node = frontier[best];
        if cand.distance < cur.distance || (cand.distance == cur.distance && cand.tile_id
            < cur.tile_id) {
            best = k;
        }
        k = k + 1;
    }
    let e: Node = frontier.remove(best);
    (e, Ghost(best as int))
}

} // verus!

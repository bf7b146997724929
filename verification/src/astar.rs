use vstd::prelude::*;
use crate::frontier::{entry_le, min_index, pop_min};
use crate::heuristic::{
    dims_ok, heuristic, heuristic_spec, lemma_isqrt_bounds, new_distance, new_distance_spec,
    pow10_spec, step_base, wrap_delta,
};
use crate::node::{
    grid_dist_sum, grid_fresh, grid_ids_unique, grid_positions, grid_shape, grid_unvisited, gview,
    lemma_grid_dist_update, lemma_grid_unvisited_update, node_at, Node,
};
use crate::torus::{direction_spec, wrap_spec};
use crate::tile::{
    end_pos_of, has_tile_at, start_pos_of, tile_ids_unique, tiles_wf, PathfindingEventType,
    PathfindingNode, Tile, TileType,
};
use crate::torus::{direction, wrap_index};

verus! {

/// The resolved end position: the given position, or `(0, 0)` when none was
/// resolved (the silent fallback the search applies).
pub open spec fn end_pos_spec(end_tile_pos: Option<(usize, usize)>) -> (int, int) {
    match end_tile_pos {
        Some(p) => (p.0 as int, p.1 as int),
        None => (0, 0),
    }
}

/// The mutable search state keeps every immutable per-node field (position,
/// identity, wall flag) as it was in the freshly built grid `g0`.
pub open spec fn grid_matches(g: Seq<Vec<Node>>, g0: Seq<Vec<Node>>, rows: int, cols: int) -> bool {
    forall|i: int, j: int|
        0 <= i < rows && 0 <= j < cols ==> (#[trigger] node_at(g, i, j)).row == node_at(
            g0,
            i,
            j,
        ).row && node_at(g, i, j).col == node_at(g0, i, j).col && node_at(g, i, j).tile_id
            == node_at(g0, i, j).tile_id && node_at(g, i, j).is_wall == node_at(g0, i, j).is_wall
}

/// Wall nodes stay marked visited, so they are never finalized or expanded.
pub open spec fn walls_visited(g: Seq<Vec<Node>>, rows: int, cols: int) -> bool {
    forall|i: int, j: int|
        0 <= i < rows && 0 <= j < cols && (#[trigger] node_at(g, i, j)).is_wall ==> node_at(
            g,
            i,
            j,
        ).visited
}

/// Every frontier entry lies in range, never undercuts the authoritative
/// node's distance, and carries a reached (non-sentinel) distance.
pub open spec fn frontier_wf(f: Seq<Node>, g: Seq<Vec<Node>>, rows: int, cols: int) -> bool {
    forall|k: int|
        0 <= k < f.len() ==> (#[trigger] f[k]).row < rows && f[k].col < cols && node_at(
            g,
            f[k].row as int,
            f[k].col as int,
        ).distance <= f[k].distance && f[k].distance < u64::MAX
}

/// Every unvisited node that has been reached keeps a frontier entry carrying
/// exactly its current distance (lazy deletion leaves stale entries behind,
/// but never loses the fresh one).
pub open spec fn frontier_covers(f: Seq<Node>, g: Seq<Vec<Node>>, rows: int, cols: int) -> bool {
    forall|i: int, j: int|
        0 <= i < rows && 0 <= j < cols && !(#[trigger] node_at(g, i, j)).visited && node_at(
            g,
            i,
            j,
        ).distance < u64::MAX ==> exists|k: int|
            0 <= k < f.len() && (#[trigger] f[k]).row == i && f[k].col == j && f[k].distance
                == node_at(g, i, j).distance
}

/// Every finalized (visited, non-wall) node's distance is at or below every
/// frontier entry: the search finalizes in non-decreasing distance order.
pub open spec fn finalized_below(f: Seq<Node>, g: Seq<Vec<Node>>, rows: int, cols: int) -> bool {
    forall|k: int, i: int, j: int|
        0 <= k < f.len() && 0 <= i < rows && 0 <= j < cols && (#[trigger] node_at(
            g,
            i,
            j,
        )).visited && !node_at(g, i, j).is_wall ==> node_at(g, i, j).distance <= (
        #[trigger] f[k]).distance
}

/// Only `Visited` events are emitted.
pub open spec fn events_visited_only(ev: Seq<PathfindingNode>) -> bool {
    forall|k: int|
        0 <= k < ev.len() ==> (#[trigger] ev[k]).event_type == PathfindingEventType::Visited
}

/// No tile is finalized twice.
pub open spec fn events_distinct(ev: Seq<PathfindingNode>) -> bool {
    forall|k1: int, k2: int|
        0 <= k1 < k2 < ev.len() ==> (#[trigger] ev[k1]).tile_id != (#[trigger] ev[k2]).tile_id
}

/// Every event carries the identity of a visited non-wall node that is not
/// the end position.
pub open spec fn events_from_nonwall(
    ev: Seq<PathfindingNode>,
    g: Seq<Vec<Node>>,
    rows: int,
    cols: int,
    ei: int,
    ej: int,
) -> bool {
    forall|k: int|
        0 <= k < ev.len() ==> exists|i: int, j: int|
            0 <= i < rows && 0 <= j < cols && !(#[trigger] node_at(g, i, j)).is_wall && node_at(
                g,
                i,
                j,
            ).visited && (i, j) != (ei, ej) && node_at(g, i, j).tile_id == (
            #[trigger] ev[k]).tile_id
}

/// The finalized distances are emitted in non-decreasing order.
pub open spec fn fin_sorted(fin: Seq<u64>) -> bool {
    forall|k1: int, k2: int| 0 <= k1 <= k2 < fin.len() ==> #[trigger] fin[k1] <= #[trigger] fin[k2]
}

/// Every finalized distance was actually reached (not the sentinel).
pub open spec fn fin_real(fin: Seq<u64>) -> bool {
    forall|k: int| 0 <= k < fin.len() ==> #[trigger] fin[k] < u64::MAX
}

/// Every recorded finalized distance is at or below every frontier entry.
pub open spec fn fin_below_frontier(fin: Seq<u64>, f: Seq<Node>) -> bool {
    forall|k1: int, k2: int|
        0 <= k1 < fin.len() && 0 <= k2 < f.len() ==> #[trigger] fin[k1] <= (#[trigger] f[k2]).distance
}

/// Every recorded finalized distance is at most `d`.
pub open spec fn fin_le(fin: Seq<u64>, d: u64) -> bool {
    forall|k: int| 0 <= k < fin.len() ==> #[trigger] fin[k] <= d
}

/// Every visited non-wall node's distance is at most `d`.
pub open spec fn visited_le(g: Seq<Vec<Node>>, rows: int, cols: int, d: u64) -> bool {
    forall|i: int, j: int|
        0 <= i < rows && 0 <= j < cols && (#[trigger] node_at(g, i, j)).visited && !node_at(
            g,
            i,
            j,
        ).is_wall ==> node_at(g, i, j).distance <= d
}

/// A search that can finalize nothing: the start position coincides with the
/// end position, or the start node is a wall.
pub open spec fn degenerate_start(g0: Seq<Vec<Node>>, sr: int, sc: int, ei: int, ej: int) -> bool {
    (sr, sc) == (ei, ej) || node_at(g0, sr, sc).is_wall
}

/// Every frontier entry sits at the start position.
pub open spec fn frontier_at_start(f: Seq<Node>, sr: int, sc: int) -> bool {
    forall|k: int| 0 <= k < f.len() ==> ((#[trigger] f[k]).row as int, f[k].col as int) == (sr, sc)
}

/// The immutable context of one search invocation: dimensions, the freshly
/// built grid, and the resolved start and end positions.
pub open spec fn search_ctx(
    g0: Seq<Vec<Node>>,
    rows: int,
    cols: int,
    sr: int,
    sc: int,
    ei: int,
    ej: int,
) -> bool {
    &&& dims_ok(rows, cols)
    &&& grid_shape(g0, rows, cols)
    &&& grid_positions(g0, rows, cols)
    &&& grid_ids_unique(g0, rows, cols)
    &&& 0 <= sr < rows
    &&& 0 <= sc < cols
    &&& 0 <= ei < rows
    &&& 0 <= ej < cols
}

/// The whole invariant of the search loop over the mutable state.
pub open spec fn search_state(
    g: Seq<Vec<Node>>,
    g0: Seq<Vec<Node>>,
    f: Seq<Node>,
    ev: Seq<PathfindingNode>,
    fin: Seq<u64>,
    rows: int,
    cols: int,
    sr: int,
    sc: int,
    ei: int,
    ej: int,
) -> bool {
    &&& grid_shape(g, rows, cols)
    &&& grid_positions(g, rows, cols)
    &&& grid_matches(g, g0, rows, cols)
    &&& walls_visited(g, rows, cols)
    &&& frontier_wf(f, g, rows, cols)
    &&& finalized_below(f, g, rows, cols)
    &&& events_visited_only(ev)
    &&& events_distinct(ev)
    &&& events_from_nonwall(ev, g, rows, cols, ei, ej)
    &&& fin.len() == ev.len()
    &&& fin_sorted(fin)
    &&& fin_real(fin)
    &&& fin_below_frontier(fin, f)
    &&& (degenerate_start(g0, sr, sc, ei, ej) ==> ev.len() == 0 && frontier_at_start(f, sr, sc))
}

/// One step of the specification-level neighbor expansion: the `k`-th of the
/// eight offsets is applied with wraparound, walls are skipped, and a
/// neighbor whose stored distance improves is updated and pushed. The range
/// guards never fail on the states the search actually reaches; they only
/// keep the function total.
pub open spec fn expand_step(
    gv: Seq<Seq<Node>>,
    f: Seq<Node>,
    er: usize,
    ec: usize,
    dcur: u64,
    end: (usize, usize),
    rows: usize,
    cols: usize,
    aggressive: bool,
    k: int,
) -> (Seq<Seq<Node>>, Seq<Node>)
    decreases 8 - k,
{
    if k < 0 || k >= 8 {
        (gv, f)
    } else {
        let d = direction_spec(k);
        let vr = wrap_spec(er as int, d.0, rows as int);
        let vc = wrap_spec(ec as int, d.1, cols as int);
        if 0 <= vr < gv.len() && 0 <= vc < gv[vr].len() {
            let nb = gv[vr][vc];
            if !nb.is_wall {
                let cost = step_base(d.0, d.1) + heuristic_spec(vr, vc, end.0 as int, end.1 as int,
                    rows as int, cols as int);
                let nd = new_distance_spec(dcur as int, cost, aggressive);
                if nd < nb.distance {
                    let nb2 = Node {
                        row: nb.row,
                        col: nb.col,
                        tile_id: nb.tile_id,
                        distance: nd as u64,
                        visited: false,
                        is_wall: nb.is_wall,
                        previous_node: Some((er, ec)),
                    };
                    expand_step(gv.update(vr, gv[vr].update(vc, nb2)), f.push(nb2), er, ec, dcur,
                        end, rows, cols, aggressive, k + 1)
                } else {
                    expand_step(gv, f, er, ec, dcur, end, rows, cols, aggressive, k + 1)
                }
            } else {
                expand_step(gv, f, er, ec, dcur, end, rows, cols, aggressive, k + 1)
            }
        } else {
            expand_step(gv, f, er, ec, dcur, end, rows, cols, aggressive, k + 1)
        }
    }
}

/// Expansion never raises the grid's total distance, and leaves the
/// frontier's length unchanged unless it strictly lowered the total.
proof fn lemma_expand_measure(
    gv: Seq<Seq<Node>>,
    f: Seq<Node>,
    er: usize,
    ec: usize,
    dcur: u64,
    end: (usize, usize),
    rows: usize,
    cols: usize,
    aggressive: bool,
    k: int,
)
    ensures
        grid_dist_sum(expand_step(gv, f, er, ec, dcur, end, rows, cols, aggressive, k).0)
            <= grid_dist_sum(gv),
        grid_dist_sum(expand_step(gv, f, er, ec, dcur, end, rows, cols, aggressive, k).0)
            == grid_dist_sum(gv) ==> expand_step(gv, f, er, ec, dcur, end, rows, cols, aggressive,
            k,
        ).1.len() == f.len(),
    decreases 8 - k,
{
    if k < 0 || k >= 8 {
    } else {
        let d = direction_spec(k);
        let vr = wrap_spec(er as int, d.0, rows as int);
        let vc = wrap_spec(ec as int, d.1, cols as int);
        if 0 <= vr < gv.len() && 0 <= vc < gv[vr].len() {
            let nb = gv[vr][vc];
            if !nb.is_wall {
                let cost = step_base(d.0, d.1) + heuristic_spec(vr, vc, end.0 as int, end.1 as int,
                    rows as int, cols as int);
                let nd = new_distance_spec(dcur as int, cost, aggressive);
                if nd < nb.distance {
                    // The improved distance is a genuine (nonnegative)
                    // value, so the grid's total strictly shrinks.
                    let dx = wrap_delta(end.0 - vr, cols as int);
                    let dy = wrap_delta(end.1 - vc, rows as int);
                    assert(dx * dx + dy * dy >= 0) by (nonlinear_arith);
                    lemma_isqrt_bounds(dx * dx + dy * dy);
                    if aggressive {
                        assert(pow10_spec(cost) >= 0) by (nonlinear_arith)
                            requires
                                cost >= 0,
                        ;
                    }
                    assert(0 <= nd);
                    let nb2 = Node {
                        row: nb.row,
                        col: nb.col,
                        tile_id: nb.tile_id,
                        distance: nd as u64,
                        visited: false,
                        is_wall: nb.is_wall,
                        previous_node: Some((er, ec)),
                    };
                    let gv2 = gv.update(vr, gv[vr].update(vc, nb2));
                    lemma_grid_dist_update(gv, vr, vc, nb2);
                    assert(grid_dist_sum(gv2) < grid_dist_sum(gv));
                    lemma_expand_measure(gv2, f.push(nb2), er, ec, dcur, end, rows, cols,
                        aggressive, k + 1);
                } else {
                    lemma_expand_measure(gv, f, er, ec, dcur, end, rows, cols, aggressive, k + 1);
                }
            } else {
                lemma_expand_measure(gv, f, er, ec, dcur, end, rows, cols, aggressive, k + 1);
            }
        } else {
            lemma_expand_measure(gv, f, er, ec, dcur, end, rows, cols, aggressive, k + 1);
        }
    }
}

/// The specification-level search loop: pop the earliest minimum-key entry,
/// discard it if its authoritative node is already visited or a wall, stop
/// (emitting nothing) when the end position is popped, and otherwise mark
/// the node visited, record its event and finalized distance, and expand
/// all eight neighbors. Returns the event sequence and the finalized
/// distances. The range guards never fail on the states the search actually
/// reaches; they only keep the function total.
pub open spec fn run_search(
    gv: Seq<Seq<Node>>,
    f: Seq<Node>,
    ev: Seq<PathfindingNode>,
    fin: Seq<u64>,
    end: (usize, usize),
    rows: usize,
    cols: usize,
    aggressive: bool,
) -> (Seq<PathfindingNode>, Seq<u64>)
    decreases grid_dist_sum(gv), f.len(),
        via run_search_dec
{
    if f.len() == 0 {
        (ev, fin)
    } else {
        let mi = min_index(f);
        let idx = if 0 <= mi < f.len() {
            mi
        } else {
            0
        };
        let e = f[idx];
        let f2 = f.remove(idx);
        if !(e.row < gv.len() && e.col < gv[e.row as int].len()) {
            run_search(gv, f2, ev, fin, end, rows, cols, aggressive)
        } else {
            let cur = gv[e.row as int][e.col as int];
            if cur.visited || cur.is_wall {
                run_search(gv, f2, ev, fin, end, rows, cols, aggressive)
            } else if e.row == end.0 && e.col == end.1 {
                (ev, fin)
            } else {
                let marked = Node {
                    row: cur.row,
                    col: cur.col,
                    tile_id: cur.tile_id,
                    distance: cur.distance,
                    visited: true,
                    is_wall: cur.is_wall,
                    previous_node: cur.previous_node,
                };
                let gv2 = gv.update(e.row as int, gv[e.row as int].update(e.col as int, marked));
                let stepped = expand_step(gv2, f2, e.row, e.col, cur.distance, end, rows, cols,
                    aggressive, 0);
                run_search(
                    stepped.0,
                    stepped.1,
                    ev.push(
                        (PathfindingNode {
                            tile_id: cur.tile_id,
                            event_type: PathfindingEventType::Visited,
                        }),
                    ),
                    fin.push(cur.distance),
                    end,
                    rows,
                    cols,
                    aggressive,
                )
            }
        }
    }
}

#[via_fn]
proof fn run_search_dec(
    gv: Seq<Seq<Node>>,
    f: Seq<Node>,
    ev: Seq<PathfindingNode>,
    fin: Seq<u64>,
    end: (usize, usize),
    rows: usize,
    cols: usize,
    aggressive: bool,
) {
    if f.len() > 0 {
        let mi = min_index(f);
        let idx = if 0 <= mi < f.len() {
            mi
        } else {
            0
        };
        let e = f[idx];
        let f2 = f.remove(idx);
        assert(f2.len() == f.len() - 1);
        if e.row < gv.len() && e.col < gv[e.row as int].len() {
            let cur = gv[e.row as int][e.col as int];
            if !cur.visited && !cur.is_wall && !(e.row == end.0 && e.col == end.1) {
                let marked = Node {
                    row: cur.row,
                    col: cur.col,
                    tile_id: cur.tile_id,
                    distance: cur.distance,
                    visited: true,
                    is_wall: cur.is_wall,
                    previous_node: cur.previous_node,
                };
                lemma_grid_dist_update(gv, e.row as int, e.col as int, marked);
                let gv2 = gv.update(e.row as int, gv[e.row as int].update(e.col as int, marked));
                assert(grid_dist_sum(gv2) == grid_dist_sum(gv));
                lemma_expand_measure(gv2, f2, e.row, e.col, cur.distance, end, rows, cols,
                    aggressive, 0);
            }
        }
    }
}

/// One whole search at the specification level, from a freshly built grid:
/// the start node is forced to distance 0 and seeds the frontier, then the
/// loop runs to completion. The out-of-range guard never fails on the
/// inputs the drivers accept; it only keeps the function total.
pub open spec fn search_run(
    g0: Seq<Seq<Node>>,
    rows: usize,
    cols: usize,
    start: (usize, usize),
    end: (usize, usize),
    aggressive: bool,
) -> (Seq<PathfindingNode>, Seq<u64>) {
    if start.0 < g0.len() && start.1 < g0[start.0 as int].len() {
        let s0 = g0[start.0 as int][start.1 as int];
        let st = Node {
            row: s0.row,
            col: s0.col,
            tile_id: s0.tile_id,
            distance: 0,
            visited: s0.visited,
            is_wall: s0.is_wall,
            previous_node: s0.previous_node,
        };
        let g1 = g0.update(start.0 as int, g0[start.0 as int].update(start.1 as int, st));
        run_search(g1, seq![st], Seq::<PathfindingNode>::empty(), Seq::<u64>::empty(), end, rows,
            cols, aggressive)
    } else {
        (Seq::<PathfindingNode>::empty(), Seq::<u64>::empty())
    }
}

/// The end position an invocation resolves: the given one, or the `(0, 0)`
/// fallback.
pub open spec fn resolved_end(end_tile_pos: Option<(usize, usize)>) -> (usize, usize) {
    match end_tile_pos {
        Some(p) => p,
        None => (0, 0),
    }
}

/// Removing one frontier entry preserves all universally quantified frontier
/// facts.
proof fn lemma_frontier_shrink(
    pre: Seq<Node>,
    post: Seq<Node>,
    idx: int,
    g: Seq<Vec<Node>>,
    fin: Seq<u64>,
    rows: int,
    cols: int,
    sr: int,
    sc: int,
)
    requires
        0 <= idx < pre.len(),
        post == pre.remove(idx),
        frontier_wf(pre, g, rows, cols),
        finalized_below(pre, g, rows, cols),
        fin_below_frontier(fin, pre),
    ensures
        frontier_wf(post, g, rows, cols),
        finalized_below(post, g, rows, cols),
        fin_below_frontier(fin, post),
        frontier_at_start(pre, sr, sc) ==> frontier_at_start(post, sr, sc),
{
    pre.remove_ensures(idx);
    assert forall|k: int| 0 <= k < post.len() implies (#[trigger] post[k]).row < rows
        && post[k].col < cols && node_at(g, post[k].row as int, post[k].col as int).distance
        <= post[k].distance && post[k].distance < u64::MAX by {
        if k < idx {
            assert(post[k] == pre[k]);
        } else {
            assert(post[k] == pre[k + 1]);
        }
    }
    assert forall|k: int, i: int, j: int|
        0 <= k < post.len() && 0 <= i < rows && 0 <= j < cols && (#[trigger] node_at(
            g,
            i,
            j,
        )).visited && !node_at(g, i, j).is_wall implies node_at(g, i, j).distance <= (
    #[trigger] post[k]).distance by {
        if k < idx {
            assert(post[k] == pre[k]);
        } else {
            assert(post[k] == pre[k + 1]);
        }
    }
    assert forall|k1: int, k2: int|
        0 <= k1 < fin.len() && 0 <= k2 < post.len() implies #[trigger] fin[k1] <= (
    #[trigger] post[k2]).distance by {
        if k2 < idx {
            assert(post[k2] == pre[k2]);
        } else {
            assert(post[k2] == pre[k2 + 1]);
        }
    }
    if frontier_at_start(pre, sr, sc) {
        assert forall|k: int| 0 <= k < post.len() implies ((#[trigger] post[k]).row as int,
        post[k].col as int) == (sr, sc) by {
            if k < idx {
                assert(post[k] == pre[k]);
            } else {
                assert(post[k] == pre[k + 1]);
            }
        }
    }
}

/// Removing a frontier entry that sits at a visited position keeps a fresh
/// entry for every reached unvisited node.
proof fn lemma_covers_after_remove(
    pre: Seq<Node>,
    post: Seq<Node>,
    idx: int,
    g: Seq<Vec<Node>>,
    rows: int,
    cols: int,
)
    requires
        0 <= idx < pre.len(),
        post == pre.remove(idx),
        frontier_covers(pre, g, rows, cols),
        0 <= pre[idx].row < rows,
        0 <= pre[idx].col < cols,
        node_at(g, pre[idx].row as int, pre[idx].col as int).visited,
    ensures
        frontier_covers(post, g, rows, cols),
{
    pre.remove_ensures(idx);
    assert forall|i: int, j: int|
        0 <= i < rows && 0 <= j < cols && !(#[trigger] node_at(g, i, j)).visited && node_at(
            g,
            i,
            j,
        ).distance < u64::MAX implies exists|k: int|
        0 <= k < post.len() && (#[trigger] post[k]).row == i && post[k].col == j && post[k].distance
            == node_at(g, i, j).distance by {
        let k0 = choose|k: int|
            0 <= k < pre.len() && (#[trigger] pre[k]).row == i && pre[k].col == j && pre[k].distance
                == node_at(g, i, j).distance;
        if k0 < idx {
            assert(post[k0] == pre[k0]);
        } else {
            assert(k0 != idx);
            assert(post[k0 - 1] == pre[k0]);
        }
    }
}

/// The freshly seeded search state satisfies the loop invariant: one entry
/// at the start position, whose node was just forced to distance 0.
proof fn lemma_initial_state(
    g0: Seq<Vec<Node>>,
    g: Seq<Vec<Node>>,
    f: Seq<Node>,
    st: Node,
    rows: int,
    cols: int,
    sr: int,
    sc: int,
    ei: int,
    ej: int,
)
    requires
        grid_shape(g0, rows, cols),
        grid_positions(g0, rows, cols),
        grid_fresh(g0, rows, cols),
        0 <= sr < rows,
        0 <= sc < cols,
        g.len() == g0.len(),
        forall|i: int| 0 <= i < rows && i != sr ==> #[trigger] g[i] == g0[i],
        g[sr]@ == g0[sr]@.update(sc, st),
        st.row == node_at(g0, sr, sc).row,
        st.col == node_at(g0, sr, sc).col,
        st.tile_id == node_at(g0, sr, sc).tile_id,
        st.visited == node_at(g0, sr, sc).visited,
        st.is_wall == node_at(g0, sr, sc).is_wall,
        st.distance == 0,
        f.len() == 1,
        f[0] == st,
    ensures
        search_state(g, g0, f, Seq::<PathfindingNode>::empty(), Seq::<u64>::empty(), rows, cols,
            sr, sc, ei, ej),
        frontier_covers(f, g, rows, cols),
{
    assert forall|i: int, j: int|
        0 <= i < rows && 0 <= j < cols && (i, j) != (sr, sc) implies node_at(g, i, j) == node_at(
        g0,
        i,
        j,
    ) by {
        if i != sr {
            assert(g[i] == g0[i]);
        }
    }
    assert(node_at(g, sr, sc) == st);
    assert forall|i: int| 0 <= i < rows implies (#[trigger] g[i])@.len() == cols by {
        if i != sr {
            assert(g[i] == g0[i]);
        }
    }
    assert forall|i: int, j: int| 0 <= i < rows && 0 <= j < cols implies (#[trigger] node_at(
        g,
        i,
        j,
    )).row == i && node_at(g, i, j).col == j && node_at(g, i, j).row == node_at(g0, i, j).row
        && node_at(g, i, j).col == node_at(g0, i, j).col && node_at(g, i, j).tile_id == node_at(
        g0,
        i,
        j,
    ).tile_id && node_at(g, i, j).is_wall == node_at(g0, i, j).is_wall && (node_at(g, i, j).visited
        == node_at(g0, i, j).visited) by {
        if (i, j) != (sr, sc) {
            assert(node_at(g, i, j) == node_at(g0, i, j));
        }
    }
    assert forall|i: int, j: int|
        0 <= i < rows && 0 <= j < cols && !(#[trigger] node_at(g, i, j)).visited && node_at(
            g,
            i,
            j,
        ).distance < u64::MAX implies exists|k: int|
        0 <= k < f.len() && (#[trigger] f[k]).row == i && f[k].col == j && f[k].distance == node_at(
            g,
            i,
            j,
        ).distance by {
        if (i, j) == (sr, sc) {
            assert(f[0].row == i && f[0].col == j && f[0].distance == node_at(g, i, j).distance);
        } else {
            assert(node_at(g, i, j) == node_at(g0, i, j));
            assert(node_at(g0, i, j).distance == u64::MAX);
        }
    }
}

/// After the loop, the event facts carry over to the freshly built grid:
/// the immutable per-node fields never changed, and unique identities keep
/// wall identities out of the output.
proof fn lemma_final_translate(
    g: Seq<Vec<Node>>,
    g0: Seq<Vec<Node>>,
    ev: Seq<PathfindingNode>,
    rows: int,
    cols: int,
    ei: int,
    ej: int,
)
    requires
        grid_matches(g, g0, rows, cols),
        grid_ids_unique(g0, rows, cols),
        events_from_nonwall(ev, g, rows, cols, ei, ej),
    ensures
        forall|k: int|
            0 <= k < ev.len() ==> exists|i: int, j: int|
                0 <= i < rows && 0 <= j < cols && !(#[trigger] node_at(g0, i, j)).is_wall && (i, j)
                    != (ei, ej) && node_at(g0, i, j).tile_id == (#[trigger] ev[k]).tile_id,
        forall|k: int, i: int, j: int|
            0 <= k < ev.len() && 0 <= i < rows && 0 <= j < cols && (#[trigger] node_at(
                g0,
                i,
                j,
            )).is_wall ==> (#[trigger] ev[k]).tile_id != node_at(g0, i, j).tile_id,
{
    assert forall|k: int| 0 <= k < ev.len() implies exists|i: int, j: int|
        0 <= i < rows && 0 <= j < cols && !(#[trigger] node_at(g0, i, j)).is_wall && (i, j) != (
        ei,
        ej,
        ) && node_at(g0, i, j).tile_id == (#[trigger] ev[k]).tile_id by {
        let (i, j): (int, int) = choose|i: int, j: int|
            0 <= i < rows && 0 <= j < cols && !(#[trigger] node_at(g, i, j)).is_wall && node_at(
                g,
                i,
                j,
            ).visited && (i, j) != (ei, ej) && node_at(g, i, j).tile_id == ev[k].tile_id;
        assert(!(node_at(g0, i, j)).is_wall && node_at(g0, i, j).tile_id == ev[k].tile_id);
    }
    assert forall|k: int, i: int, j: int|
        0 <= k < ev.len() && 0 <= i < rows && 0 <= j < cols && (#[trigger] node_at(
            g0,
            i,
            j,
        )).is_wall implies (#[trigger] ev[k]).tile_id != node_at(g0, i, j).tile_id by {
        let (i2, j2): (int, int) = choose|i2: int, j2: int|
            0 <= i2 < rows && 0 <= j2 < cols && !(#[trigger] node_at(g0, i2, j2)).is_wall && (
            i2,
            j2,
            ) != (ei, ej) && node_at(g0, i2, j2).tile_id == ev[k].tile_id;
        assert((i, j) != (i2, j2));
    }
}


/// Finalizing the popped node: its stored distance equals the popped key,
/// the search is not degenerate, and the whole loop invariant survives the
/// removal, the marking, and the emission of the new event.
proof fn lemma_finalize(
    gpre: Seq<Vec<Node>>,
    g: Seq<Vec<Node>>,
    g0: Seq<Vec<Node>>,
    pre: Seq<Node>,
    post: Seq<Node>,
    gidx: int,
    e: Node,
    ufix: Node,
    ev: Seq<PathfindingNode>,
    fin: Seq<u64>,
    rows: int,
    cols: int,
    sr: int,
    sc: int,
    ei: int,
    ej: int,
)
    requires
        search_ctx(g0, rows, cols, sr, sc, ei, ej),
        search_state(gpre, g0, pre, ev, fin, rows, cols, sr, sc, ei, ej),
        frontier_covers(pre, gpre, rows, cols),
        0 <= gidx < pre.len(),
        post == pre.remove(gidx),
        e == pre[gidx],
        forall|k: int| 0 <= k < pre.len() ==> entry_le(e, #[trigger] pre[k]),
        !node_at(gpre, e.row as int, e.col as int).visited,
        !node_at(gpre, e.row as int, e.col as int).is_wall,
        (e.row as int, e.col as int) != (ei, ej),
        ufix.row == node_at(gpre, e.row as int, e.col as int).row,
        ufix.col == node_at(gpre, e.row as int, e.col as int).col,
        ufix.tile_id == node_at(gpre, e.row as int, e.col as int).tile_id,
        ufix.is_wall == node_at(gpre, e.row as int, e.col as int).is_wall,
        ufix.distance == node_at(gpre, e.row as int, e.col as int).distance,
        ufix.visited == true,
        g.len() == gpre.len(),
        forall|i: int| 0 <= i < rows && i != e.row as int ==> #[trigger] g[i] == gpre[i],
        g[e.row as int]@ == gpre[e.row as int]@.update(e.col as int, ufix),
    ensures
        node_at(gpre, e.row as int, e.col as int).distance == e.distance,
        !degenerate_start(g0, sr, sc, ei, ej),
        search_state(g, g0, post, ev.push(
            (PathfindingNode {
                tile_id: node_at(gpre, e.row as int, e.col as int).tile_id,
                event_type: PathfindingEventType::Visited,
            }),
        ), fin.push(e.distance), rows, cols, sr, sc, ei, ej),
        frontier_covers(post, g, rows, cols),
        visited_le(g, rows, cols, e.distance),
        fin_le(fin.push(e.distance), e.distance),
        grid_unvisited(gview(g)) + 1 == grid_unvisited(gview(gpre)),
{
    let er = e.row as int;
    let ec = e.col as int;
    let cur = node_at(gpre, er, ec);
    assert(pre[gidx] == e);
    assert(e.row < rows && e.col < cols && cur.distance <= e.distance && e.distance < u64::MAX);
    // The node keeps a fresh entry, and the popped entry is minimal, so the
    // popped key is exactly the node's current distance.
    let w = choose|k: int|
        0 <= k < pre.len() && (#[trigger] pre[k]).row == er && pre[k].col == ec && pre[k].distance
            == node_at(gpre, er, ec).distance;
    assert(entry_le(e, pre[w]));
    assert(cur.distance == e.distance);
    // A degenerate search never reaches a finalization.
    if degenerate_start(g0, sr, sc, ei, ej) {
        assert(((pre[gidx]).row as int, pre[gidx].col as int) == (sr, sc));
        if (sr, sc) == (ei, ej) {
            assert(false);
        } else {
            assert(node_at(g0, sr, sc).is_wall);
            assert(node_at(gpre, sr, sc).is_wall == node_at(g0, sr, sc).is_wall);
            assert(false);
        }
    }
    // Pointwise relation of the updated grid.
    assert forall|i: int, j: int|
        0 <= i < rows && 0 <= j < cols && (i, j) != (er, ec) implies node_at(g, i, j) == node_at(
        gpre,
        i,
        j,
    ) by {
        if i != er {
            assert(g[i] == gpre[i]);
        }
    }
    assert(node_at(g, er, ec) == ufix);
    assert forall|i: int| 0 <= i < rows implies (#[trigger] g[i])@.len() == cols by {
        if i != er {
            assert(g[i] == gpre[i]);
        }
    }
    assert forall|i: int, j: int| 0 <= i < rows && 0 <= j < cols implies (#[trigger] node_at(
        g,
        i,
        j,
    )).row == i && node_at(g, i, j).col == j && node_at(g, i, j).row == node_at(g0, i, j).row
        && node_at(g, i, j).col == node_at(g0, i, j).col && node_at(g, i, j).tile_id == node_at(
        g0,
        i,
        j,
    ).tile_id && node_at(g, i, j).is_wall == node_at(g0, i, j).is_wall && (node_at(
        g,
        i,
        j,
    ).is_wall ==> node_at(g, i, j).visited) by {
        if (i, j) != (er, ec) {
            assert(node_at(g, i, j) == node_at(gpre, i, j));
        }
    }
    // Frontier facts against the updated grid.
    assert forall|k: int| 0 <= k < pre.len() implies (#[trigger] pre[k]).row < rows && pre[k].col
        < cols && node_at(g, pre[k].row as int, pre[k].col as int).distance <= pre[k].distance
        && pre[k].distance < u64::MAX by {
        if (pre[k].row as int, pre[k].col as int) == (er, ec) {
            assert(node_at(g, er, ec).distance == cur.distance);
            assert(entry_le(e, pre[k]));
        } else {
            assert(node_at(g, pre[k].row as int, pre[k].col as int) == node_at(
                gpre,
                pre[k].row as int,
                pre[k].col as int,
            ));
        }
    }
    assert forall|k: int, i: int, j: int|
        0 <= k < pre.len() && 0 <= i < rows && 0 <= j < cols && (#[trigger] node_at(
            g,
            i,
            j,
        )).visited && !node_at(g, i, j).is_wall implies node_at(g, i, j).distance <= (
    #[trigger] pre[k]).distance by {
        if (i, j) == (er, ec) {
            assert(entry_le(e, pre[k]));
        } else {
            assert(node_at(g, i, j) == node_at(gpre, i, j));
        }
    }
    assert forall|i: int, j: int|
        0 <= i < rows && 0 <= j < cols && !(#[trigger] node_at(g, i, j)).visited && node_at(
            g,
            i,
            j,
        ).distance < u64::MAX implies exists|k: int|
        0 <= k < pre.len() && (#[trigger] pre[k]).row == i && pre[k].col == j && pre[k].distance
            == node_at(g, i, j).distance by {
        assert((i, j) != (er, ec));
        assert(node_at(g, i, j) == node_at(gpre, i, j));
    }
    lemma_frontier_shrink(pre, post, gidx, g, fin, rows, cols, sr, sc);
    lemma_covers_after_remove(pre, post, gidx, g, rows, cols);
    pre.remove_ensures(gidx);
    // The new finalized distance extends the sorted record and stays at or
    // below every remaining entry.
    let fin2 = fin.push(e.distance);
    assert forall|k: int| 0 <= k < fin.len() implies #[trigger] fin[k] <= e.distance by {
        assert(fin[k] <= (pre[gidx]).distance);
    }
    assert forall|k1: int, k2: int|
        0 <= k1 < fin2.len() && 0 <= k2 < post.len() implies #[trigger] fin2[k1] <= (
    #[trigger] post[k2]).distance by {
        if k1 == fin.len() {
            if k2 < gidx {
                assert(post[k2] == pre[k2]);
                assert(entry_le(e, pre[k2]));
            } else {
                assert(post[k2] == pre[k2 + 1]);
                assert(entry_le(e, pre[k2 + 1]));
            }
        }
    }
    // The emitted events stay distinct and keep witnesses.
    let newev = PathfindingNode { tile_id: cur.tile_id, event_type: PathfindingEventType::Visited };
    let ev2 = ev.push(newev);
    assert forall|k1: int, k2: int|
        0 <= k1 < k2 < ev2.len() implies (#[trigger] ev2[k1]).tile_id != (
    #[trigger] ev2[k2]).tile_id by {
        if k2 == ev2.len() - 1 {
            let (i, j): (int, int) = choose|i: int, j: int|
                0 <= i < rows && 0 <= j < cols && !(#[trigger] node_at(gpre, i, j)).is_wall
                    && node_at(gpre, i, j).visited && (i, j) != (ei, ej) && node_at(
                    gpre,
                    i,
                    j,
                ).tile_id == ev[k1].tile_id;
            assert((i, j) != (er, ec));
            assert(node_at(g0, i, j).tile_id != node_at(g0, er, ec).tile_id);
            assert(node_at(gpre, i, j).tile_id == node_at(g0, i, j).tile_id);
            assert(node_at(gpre, er, ec).tile_id == node_at(g0, er, ec).tile_id);
        }
    }
    assert forall|k: int| 0 <= k < ev2.len() implies exists|i: int, j: int|
        0 <= i < rows && 0 <= j < cols && !(#[trigger] node_at(g, i, j)).is_wall && node_at(
            g,
            i,
            j,
        ).visited && (i, j) != (ei, ej) && node_at(g, i, j).tile_id == (#[trigger] ev2[k]).tile_id by {
        if k == ev2.len() - 1 {
            assert(0 <= er < rows && 0 <= ec < cols && !(node_at(g, er, ec)).is_wall && node_at(
                g,
                er,
                ec,
            ).visited && (er, ec) != (ei, ej) && node_at(g, er, ec).tile_id == ev2[k].tile_id);
        } else {
            let (i, j): (int, int) = choose|i: int, j: int|
                0 <= i < rows && 0 <= j < cols && !(#[trigger] node_at(gpre, i, j)).is_wall
                    && node_at(gpre, i, j).visited && (i, j) != (ei, ej) && node_at(
                    gpre,
                    i,
                    j,
                ).tile_id == ev[k].tile_id;
            assert((i, j) != (er, ec));
            assert(node_at(g, i, j) == node_at(gpre, i, j));
        }
    }
    // Every already finalized node sits at or below the new key.
    assert forall|i: int, j: int|
        0 <= i < rows && 0 <= j < cols && (#[trigger] node_at(g, i, j)).visited && !node_at(
            g,
            i,
            j,
        ).is_wall implies node_at(g, i, j).distance <= e.distance by {
        if (i, j) != (er, ec) {
            assert(node_at(g, i, j) == node_at(gpre, i, j));
            assert(node_at(gpre, i, j).distance <= (pre[gidx]).distance);
        }
    }
    // One node left the unvisited count.
    assert(gview(g) =~~= gview(gpre).update(er, gview(gpre)[er].update(ec, ufix)));
    lemma_grid_unvisited_update(gview(gpre), er, ec, ufix);
}

/// Relaxing a neighbor: the improved node was necessarily unvisited, and the
/// whole loop invariant survives the distance update and the push of the
/// fresh entry.
proof fn lemma_relax(
    gpre: Seq<Vec<Node>>,
    g: Seq<Vec<Node>>,
    g0: Seq<Vec<Node>>,
    fpre: Seq<Node>,
    f: Seq<Node>,
    nb: Node,
    nb2: Node,
    vr: int,
    vc: int,
    dcur: u64,
    nd: u64,
    ev: Seq<PathfindingNode>,
    fin: Seq<u64>,
    rows: int,
    cols: int,
    sr: int,
    sc: int,
    ei: int,
    ej: int,
)
    requires
        search_ctx(g0, rows, cols, sr, sc, ei, ej),
        search_state(gpre, g0, fpre, ev, fin, rows, cols, sr, sc, ei, ej),
        frontier_covers(fpre, gpre, rows, cols),
        visited_le(gpre, rows, cols, dcur),
        fin_le(fin, dcur),
        !degenerate_start(g0, sr, sc, ei, ej),
        0 <= vr < rows,
        0 <= vc < cols,
        nb == node_at(gpre, vr, vc),
        !nb.is_wall,
        dcur <= nd,
        nd < nb.distance,
        nb2.row == nb.row,
        nb2.col == nb.col,
        nb2.tile_id == nb.tile_id,
        nb2.is_wall == nb.is_wall,
        nb2.distance == nd,
        nb2.visited == false,
        g.len() == gpre.len(),
        forall|i: int| 0 <= i < rows && i != vr ==> #[trigger] g[i] == gpre[i],
        g[vr]@ == gpre[vr]@.update(vc, nb2),
        f == fpre.push(nb2),
    ensures
        search_state(g, g0, f, ev, fin, rows, cols, sr, sc, ei, ej),
        frontier_covers(f, g, rows, cols),
        visited_le(g, rows, cols, dcur),
        grid_unvisited(gview(g)) == grid_unvisited(gview(gpre)),
{
    // A visited non-wall node is never improved.
    assert(!nb.visited);
    // Pointwise relation of the updated grid.
    assert forall|i: int, j: int|
        0 <= i < rows && 0 <= j < cols && (i, j) != (vr, vc) implies node_at(g, i, j) == node_at(
        gpre,
        i,
        j,
    ) by {
        if i != vr {
            assert(g[i] == gpre[i]);
        }
    }
    assert(node_at(g, vr, vc) == nb2);
    assert forall|i: int| 0 <= i < rows implies (#[trigger] g[i])@.len() == cols by {
        if i != vr {
            assert(g[i] == gpre[i]);
        }
    }
    assert forall|i: int, j: int| 0 <= i < rows && 0 <= j < cols implies (#[trigger] node_at(
        g,
        i,
        j,
    )).row == i && node_at(g, i, j).col == j && node_at(g, i, j).row == node_at(g0, i, j).row
        && node_at(g, i, j).col == node_at(g0, i, j).col && node_at(g, i, j).tile_id == node_at(
        g0,
        i,
        j,
    ).tile_id && node_at(g, i, j).is_wall == node_at(g0, i, j).is_wall && (node_at(
        g,
        i,
        j,
    ).is_wall ==> node_at(g, i, j).visited) by {
        if (i, j) != (vr, vc) {
            assert(node_at(g, i, j) == node_at(gpre, i, j));
        }
    }
    // The frontier with the freshly pushed entry.
    assert forall|k: int| 0 <= k < f.len() implies (#[trigger] f[k]).row < rows && f[k].col < cols
        && node_at(g, f[k].row as int, f[k].col as int).distance <= f[k].distance && f[k].distance
        < u64::MAX by {
        if k < fpre.len() {
            assert(f[k] == fpre[k]);
            if (fpre[k].row as int, fpre[k].col as int) == (vr, vc) {
                assert(node_at(g, vr, vc).distance == nd);
            } else {
                assert(node_at(g, fpre[k].row as int, fpre[k].col as int) == node_at(
                    gpre,
                    fpre[k].row as int,
                    fpre[k].col as int,
                ));
            }
        } else {
            assert(f[k] == nb2);
            assert(nb2.row == vr && nb2.col == vc);
        }
    }
    assert forall|i: int, j: int|
        0 <= i < rows && 0 <= j < cols && !(#[trigger] node_at(g, i, j)).visited && node_at(
            g,
            i,
            j,
        ).distance < u64::MAX implies exists|k: int|
        0 <= k < f.len() && (#[trigger] f[k]).row == i && f[k].col == j && f[k].distance == node_at(
            g,
            i,
            j,
        ).distance by {
        if (i, j) == (vr, vc) {
            assert(f[f.len() - 1] == nb2);
            assert(nb2.row == i && nb2.col == j && nb2.distance == node_at(g, i, j).distance);
        } else {
            assert(node_at(g, i, j) == node_at(gpre, i, j));
            let kk = choose|kk: int|
                0 <= kk < fpre.len() && (#[trigger] fpre[kk]).row == i && fpre[kk].col == j
                    && fpre[kk].distance == node_at(gpre, i, j).distance;
            assert(f[kk] == fpre[kk]);
        }
    }
    assert forall|k: int, i: int, j: int|
        0 <= k < f.len() && 0 <= i < rows && 0 <= j < cols && (#[trigger] node_at(
            g,
            i,
            j,
        )).visited && !node_at(g, i, j).is_wall implies node_at(g, i, j).distance <= (
    #[trigger] f[k]).distance by {
        assert((i, j) != (vr, vc));
        assert(node_at(g, i, j) == node_at(gpre, i, j));
        if k < fpre.len() {
            assert(f[k] == fpre[k]);
        } else {
            assert(f[k] == nb2);
            assert(node_at(gpre, i, j).distance <= dcur);
        }
    }
    assert forall|kk: int| 0 <= kk < ev.len() implies exists|i: int, j: int|
        0 <= i < rows && 0 <= j < cols && !(#[trigger] node_at(g, i, j)).is_wall && node_at(
            g,
            i,
            j,
        ).visited && (i, j) != (ei, ej) && node_at(g, i, j).tile_id == (#[trigger] ev[kk]).tile_id by {
        let (i, j): (int, int) = choose|i: int, j: int|
            0 <= i < rows && 0 <= j < cols && !(#[trigger] node_at(gpre, i, j)).is_wall && node_at(
                gpre,
                i,
                j,
            ).visited && (i, j) != (ei, ej) && node_at(gpre, i, j).tile_id == ev[kk].tile_id;
        assert((i, j) != (vr, vc));
        assert(node_at(g, i, j) == node_at(gpre, i, j));
    }
    assert forall|k1: int, k2: int|
        0 <= k1 < fin.len() && 0 <= k2 < f.len() implies #[trigger] fin[k1] <= (
    #[trigger] f[k2]).distance by {
        if k2 < fpre.len() {
            assert(f[k2] == fpre[k2]);
        } else {
            assert(f[k2] == nb2);
            assert(fin[k1] <= dcur);
        }
    }
    assert forall|i: int, j: int|
        0 <= i < rows && 0 <= j < cols && (#[trigger] node_at(g, i, j)).visited && !node_at(
            g,
            i,
            j,
        ).is_wall implies node_at(g, i, j).distance <= dcur by {
        assert((i, j) != (vr, vc));
        assert(node_at(g, i, j) == node_at(gpre, i, j));
    }
    // The unvisited count is unchanged: the node stays unvisited.
    assert(gview(g) =~~= gview(gpre).update(vr, gview(gpre)[vr].update(vc, nb2)));
    lemma_grid_unvisited_update(gview(gpre), vr, vc, nb2);
}

/// The A*-style search driver. Pops the minimum-distance frontier entry,
/// discards stale entries by consulting the authoritative node grid,
/// terminates as soon as the end position is popped (without finalizing it
/// or emitting an event for it), and otherwise finalizes the node, emits a
/// `Visited` event and relaxes all eight toroidal neighbors under the
/// selected cost-growth mode.
///
/// Besides the events it returns the (ghost) sequence of finalized
/// distances, one per event: it is non-decreasing, which is the ordering
/// guarantee of the output sequence.
#[verifier::rlimit(100)]
pub fn astar(
    nodes: Vec<Vec<Node>>,
    rows: usize,
    cols: usize,
    current_tile_pos: (usize, usize),
    end_tile_pos: Option<(usize, usize)>,
    is_aggressive: bool,
) -> (out: (Vec<PathfindingNode>, Ghost<Seq<u64>>))
    requires
        dims_ok(rows as int, cols as int),
        grid_shape(nodes@, rows as int, cols as int),
        grid_positions(nodes@, rows as int, cols as int),
        grid_ids_unique(nodes@, rows as int, cols as int),
        grid_fresh(nodes@, rows as int, cols as int),
        current_tile_pos.0 < rows,
        current_tile_pos.1 < cols,
        end_tile_pos matches Some(p) ==> p.0 < rows && p.1 < cols,
    ensures
        events_visited_only(out.0@),
        events_distinct(out.0@),
        forall|k: int|
            0 <= k < out.0@.len() ==> exists|i: int, j: int|
                0 <= i < rows && 0 <= j < cols && !(#[trigger] node_at(nodes@, i, j)).is_wall && (
                i,
                j,
                ) != end_pos_spec(end_tile_pos) && node_at(nodes@, i, j).tile_id == (
                #[trigger] out.0@[k]).tile_id,
        forall|k: int, i: int, j: int|
            0 <= k < out.0@.len() && 0 <= i < rows && 0 <= j < cols && (#[trigger] node_at(
                nodes@,
                i,
                j,
            )).is_wall ==> (#[trigger] out.0@[k]).tile_id != node_at(nodes@, i, j).tile_id,
        out.1@.len() == out.0@.len(),
        fin_sorted(out.1@),
        fin_real(out.1@),
        ((current_tile_pos.0 as int, current_tile_pos.1 as int) == end_pos_spec(end_tile_pos)
            || node_at(nodes@, current_tile_pos.0 as int, current_tile_pos.1 as int).is_wall)
            ==> out.0@.len() == 0,
        out.0@ == search_run(gview(nodes@), rows, cols, current_tile_pos, resolved_end(
            end_tile_pos,
        ), is_aggressive).0,
        out.1@ == search_run(gview(nodes@), rows, cols, current_tile_pos, resolved_end(
            end_tile_pos,
        ), is_aggressive).1,
{
    let ghost g0: Seq<Vec<Node>> = nodes@;
    let mut nodes = nodes;
    let sr: usize = current_tile_pos.0;
    let sc: usize = current_tile_pos.1;
    let end_pos: (usize, usize) = match end_tile_pos {
        Some(p) => p,
        None => (0, 0),
    };
    let ghost ei: int = end_pos.0 as int;
    let ghost ej: int = end_pos.1 as int;
    proof {
        assert((ei, ej) == end_pos_spec(end_tile_pos));
    }
    // Launch: the start node is forced to distance 0 and seeds the frontier.
    let mut st: Node = nodes[sr][sc];
    st.distance = 0;
    nodes[sr][sc] = st;
    let mut frontier: Vec<Node> = Vec::new();
    frontier.push(st);
    let mut event_order: Vec<PathfindingNode> = Vec::new();
    let ghost mut fin: Seq<u64> = Seq::<u64>::empty();
    let mut done: bool = false;
    let ghost target: (Seq<PathfindingNode>, Seq<u64>) = search_run(gview(g0), rows, cols,
        current_tile_pos, end_pos, is_aggressive);
    proof {
        assert(frontier@.len() == 1 && frontier@[0] == st);
        lemma_initial_state(g0, nodes@, frontier@, st, rows as int, cols as int, sr as int,
            sc as int, ei, ej);
        // The seeded state is exactly the model's launch state.
        assert(end_pos == resolved_end(end_tile_pos));
        assert(gview(g0).len() == rows && gview(g0)[sr as int].len() == cols);
        let ms = gview(g0)[sr as int][sc as int];
        assert(ms == node_at(g0, sr as int, sc as int));
        assert(st == (Node {
            row: ms.row,
            col: ms.col,
            tile_id: ms.tile_id,
            distance: 0,
            visited: ms.visited,
            is_wall: ms.is_wall,
            previous_node: ms.previous_node,
        }));
        assert(gview(nodes@) =~~= gview(g0).update(
            sr as int,
            gview(g0)[sr as int].update(sc as int, st),
        ));
        assert(frontier@ =~= seq![st]);
        assert(run_search(gview(nodes@), frontier@, Seq::<PathfindingNode>::empty(), Seq::<
            u64,
        >::empty(), end_pos, rows, cols, is_aggressive) == target);
    }
    while !done && frontier.len() > 0
        invariant
            search_ctx(g0, rows as int, cols as int, sr as int, sc as int, ei, ej),
            end_pos.0 as int == ei,
            end_pos.1 as int == ej,
            search_state(nodes@, g0, frontier@, event_order@, fin, rows as int, cols as int,
                sr as int, sc as int, ei, ej),
            !done ==> frontier_covers(frontier@, nodes@, rows as int, cols as int),
            done ==> (event_order@, fin) == target,
            !done ==> run_search(gview(nodes@), frontier@, event_order@, fin, end_pos, rows, cols,
                is_aggressive) == target,
        decreases grid_unvisited(gview(nodes@)), frontier@.len(),
    {
        let ghost pre: Seq<Node> = frontier@;
        let ghost ev0: Seq<PathfindingNode> = event_order@;
        let ghost fin0: Seq<u64> = fin;
        let ghost cnt0: nat = grid_unvisited(gview(nodes@));
        let popped: (Node, Ghost<int>) = pop_min(&mut frontier);
        let e: Node = popped.0;
        let ghost gidx: int = popped.1@;
        proof {
            assert(pre[gidx] == e);
        }
        let er_: usize = e.row;
        let ec_: usize = e.col;
        let cur: Node = nodes[er_][ec_];
        proof {
            assert(cur == node_at(nodes@, er_ as int, ec_ as int));
        }
        proof {
            assert(min_index(pre) == gidx);
            assert(gview(nodes@).len() == rows && gview(nodes@)[er_ as int].len() == cols);
            assert(gview(nodes@)[er_ as int][ec_ as int] == cur);
        }
        if cur.visited || cur.is_wall {
            // A stale or duplicate entry, or a wall seed: discard it.
            proof {
                assert(node_at(nodes@, er_ as int, ec_ as int).visited);
                lemma_frontier_shrink(pre, frontier@, gidx, nodes@, fin, rows as int, cols as int,
                    sr as int, sc as int);
                lemma_covers_after_remove(pre, frontier@, gidx, nodes@, rows as int, cols as int);
                assert(run_search(gview(nodes@), pre, ev0, fin0, end_pos, rows, cols, is_aggressive)
                    == run_search(gview(nodes@), frontier@, event_order@, fin, end_pos, rows, cols,
                    is_aggressive));
            }
        } else if er_ == end_pos.0 && ec_ == end_pos.1 {
            // The end position was popped: terminate at once, without
            // finalizing it or emitting an event for it.
            proof {
                lemma_frontier_shrink(pre, frontier@, gidx, nodes@, fin, rows as int, cols as int,
                    sr as int, sc as int);
                assert(run_search(gview(nodes@), pre, ev0, fin0, end_pos, rows, cols, is_aggressive)
                    == (ev0, fin0));
                assert((event_order@, fin) == target);
            }
            done = true;
        } else {
            // Finalize the authoritative node and emit its event.
            let mut ufix: Node = cur;
            ufix.visited = true;
            let ghost gpre: Seq<Vec<Node>> = nodes@;
            nodes[er_][ec_] = ufix;
            proof {
                assert(nodes@[er_ as int]@ == gpre[er_ as int]@.update(ec_ as int, ufix));
                assert(forall|i: int|
                    0 <= i < rows && i != er_ as int ==> #[trigger] nodes@[i] == gpre[i]);
                lemma_finalize(gpre, nodes@, g0, pre, frontier@, gidx, e, ufix, event_order@, fin,
                    rows as int, cols as int, sr as int, sc as int, ei, ej);
                // The marking matches the model's marking step.
                assert(ufix == (Node {
                    row: cur.row,
                    col: cur.col,
                    tile_id: cur.tile_id,
                    distance: cur.distance,
                    visited: true,
                    is_wall: cur.is_wall,
                    previous_node: cur.previous_node,
                }));
                assert(gview(nodes@) =~~= gview(gpre).update(
                    er_ as int,
                    gview(gpre)[er_ as int].update(ec_ as int, ufix),
                ));
            }
            event_order.push(
                PathfindingNode { tile_id: cur.tile_id, event_type: PathfindingEventType::Visited },
            );
            proof {
                fin = fin.push(cur.distance);
            }
            let ghost target2: (Seq<Seq<Node>>, Seq<Node>) = expand_step(gview(nodes@), frontier@,
                er_, ec_, cur.distance, end_pos, rows, cols, is_aggressive, 0);
            proof {
                // One unfolding of the model loop: marking, recording the
                // event and distance, then expanding.
                assert(event_order@ == ev0.push(
                    (PathfindingNode {
                        tile_id: cur.tile_id,
                        event_type: PathfindingEventType::Visited,
                    }),
                ));
                assert(fin == fin0.push(cur.distance));
                assert(run_search(gview(gpre), pre, ev0, fin0, end_pos, rows, cols, is_aggressive)
                    == run_search(target2.0, target2.1, event_order@, fin, end_pos, rows, cols,
                    is_aggressive));
                assert(run_search(target2.0, target2.1, event_order@, fin, end_pos, rows, cols,
                    is_aggressive) == target);
            }
            // Expand all eight toroidal neighbors.
            let mut k: usize = 0;
            while k < 8
                invariant
                    k <= 8,
                    expand_step(gview(nodes@), frontier@, er_, ec_, cur.distance, end_pos, rows,
                        cols, is_aggressive, k as int) == target2,
                    run_search(target2.0, target2.1, event_order@, fin, end_pos, rows, cols,
                        is_aggressive) == target,
                    search_ctx(g0, rows as int, cols as int, sr as int, sc as int, ei, ej),
                    end_pos.0 as int == ei,
                    end_pos.1 as int == ej,
                    er_ < rows,
                    ec_ < cols,
                    !degenerate_start(g0, sr as int, sc as int, ei, ej),
                    search_state(nodes@, g0, frontier@, event_order@, fin, rows as int,
                        cols as int, sr as int, sc as int, ei, ej),
                    frontier_covers(frontier@, nodes@, rows as int, cols as int),
                    visited_le(nodes@, rows as int, cols as int, cur.distance),
                    fin_le(fin, cur.distance),
                    grid_unvisited(gview(nodes@)) + 1 == cnt0,
                decreases 8 - k,
            {
                let d: (i64, i64) = direction(k);
                let vr: usize = wrap_index(er_, d.0, rows);
                let vc: usize = wrap_index(ec_, d.1, cols);
                let nb: Node = nodes[vr][vc];
                proof {
                    assert(nb == node_at(nodes@, vr as int, vc as int));
                    // The computed neighbor is the model's neighbor.
                    assert(vr as int == wrap_spec(er_ as int, direction_spec(k as int).0,
                        rows as int));
                    assert(vc as int == wrap_spec(ec_ as int, direction_spec(k as int).1,
                        cols as int));
                    assert(gview(nodes@).len() == rows && gview(nodes@)[vr as int].len() == cols);
                    assert(gview(nodes@)[vr as int][vc as int] == nb);
                }
                if !nb.is_wall {
                    let h: u64 = heuristic(vr, vc, end_pos.0, end_pos.1, rows, cols);
                    let base: u64 = if d.0 != 0 && d.1 != 0 {
                        14
                    } else {
                        10
                    };
                    proof {
                        assert(base as int == step_base(d.0 as int, d.1 as int));
                    }
                    let cost: u64 = base + h;
                    let nd: u64 = new_distance(cur.distance, cost, is_aggressive);
                    if nd < nb.distance {
                        let mut nb2: Node = nb;
                        nb2.distance = nd;
                        nb2.previous_node = Some((er_, ec_));
                        nb2.visited = false;
                        let ghost gpre2: Seq<Vec<Node>> = nodes@;
                        let ghost fpre: Seq<Node> = frontier@;
                        nodes[vr][vc] = nb2;
                        frontier.push(nb2);
                        proof {
                            assert(nodes@[vr as int]@ == gpre2[vr as int]@.update(vc as int, nb2));
                            assert(forall|i: int|
                                0 <= i < rows && i != vr as int ==> #[trigger] nodes@[i]
                                    == gpre2[i]);
                            assert(frontier@ == fpre.push(nb2));
                            lemma_relax(gpre2, nodes@, g0, fpre, frontier@, nb, nb2, vr as int,
                                vc as int, cur.distance, nd, event_order@, fin, rows as int,
                                cols as int, sr as int, sc as int, ei, ej);
                            // The update matches the model's relaxation.
                            let mcost = step_base(direction_spec(k as int).0, direction_spec(
                                k as int,
                            ).1) + heuristic_spec(vr as int, vc as int, end_pos.0 as int,
                                end_pos.1 as int, rows as int, cols as int);
                            assert(cost as int == mcost);
                            let mnd = new_distance_spec(cur.distance as int, mcost, is_aggressive);
                            assert(nd as int == mnd);
                            assert(nb2 == (Node {
                                row: nb.row,
                                col: nb.col,
                                tile_id: nb.tile_id,
                                distance: mnd as u64,
                                visited: false,
                                is_wall: nb.is_wall,
                                previous_node: Some((er_, ec_)),
                            }));
                            assert(gview(nodes@) =~~= gview(gpre2).update(
                                vr as int,
                                gview(gpre2)[vr as int].update(vc as int, nb2),
                            ));
                        }
                    }
                }
                proof {
                    assert(expand_step(gview(nodes@), frontier@, er_, ec_, cur.distance, end_pos,
                        rows, cols, is_aggressive, k as int + 1) == target2);
                }
                k = k + 1;
            }
            proof {
                // The eight offsets are exhausted: the reached state is the
                // model's expanded state, so the loop relation holds again.
                assert((gview(nodes@), frontier@) == target2);
                assert(run_search(gview(nodes@), frontier@, event_order@, fin, end_pos, rows, cols,
                    is_aggressive) == target);
            }
        }
    }
    proof {
        lemma_final_translate(nodes@, g0, event_order@, rows as int, cols as int, ei, ej);
        if !done {
            assert(frontier@.len() == 0);
            assert(run_search(gview(nodes@), frontier@, event_order@, fin, end_pos, rows, cols,
                is_aggressive) == (event_order@, fin));
        }
        assert((event_order@, fin) == target);
        assert(end_pos == resolved_end(end_tile_pos));
    }
    (event_order, Ghost(fin))
}

/// The node grid built from the input cells: each cell's node carries its
/// identity, and exactly the wall cells' nodes are pre-marked visited.
pub open spec fn nodes_match_tiles(
    g: Seq<Vec<Node>>,
    tiles: Seq<Tile>,
    rows: int,
    cols: int,
) -> bool {
    forall|m: int|
        0 <= m < tiles.len() ==> node_at(g, (#[trigger] tiles[m]).row as int,
            tiles[m].col as int).tile_id == tiles[m].id && node_at(g, tiles[m].row as int,
            tiles[m].col as int).is_wall == (tiles[m].tile_type == TileType::Wall) && node_at(
            g,
            tiles[m].row as int,
            tiles[m].col as int,
        ).visited == (tiles[m].tile_type == TileType::Wall)
}

/// The node a well-formed snapshot puts at position `(i, j)`: fresh, at the
/// sentinel distance, carrying the identity of the cell at that position,
/// and pre-marked visited exactly when that cell is a wall.
pub open spec fn built_node(tiles: Seq<Tile>, i: int, j: int) -> Node {
    if has_tile_at(tiles, i, j) {
        let k = choose|k: int|
            0 <= k < tiles.len() && (#[trigger] tiles[k]).row == i && tiles[k].col == j;
        Node {
            row: tiles[k].row,
            col: tiles[k].col,
            tile_id: tiles[k].id,
            distance: u64::MAX,
            visited: tiles[k].tile_type == TileType::Wall,
            is_wall: tiles[k].tile_type == TileType::Wall,
            previous_node: None,
        }
    } else {
        Node {
            row: i as usize,
            col: j as usize,
            tile_id: 0,
            distance: u64::MAX,
            visited: false,
            is_wall: false,
            previous_node: None,
        }
    }
}

/// The whole node grid a snapshot builds.
pub open spec fn built_grid(tiles: Seq<Tile>, rows: usize, cols: usize) -> Seq<Seq<Node>> {
    Seq::new(rows as nat, |i: int| Seq::new(cols as nat, |j: int| built_node(tiles, i, j)))
}

/// One whole invocation at the specification level: the grid is built from
/// the cells, the start and end positions are resolved (with their `(0, 0)`
/// fallbacks), and the search runs to completion.
pub open spec fn setup_run(
    tiles: Seq<Tile>,
    rows: usize,
    cols: usize,
    current_tile_id: usize,
    aggressive: bool,
) -> (Seq<PathfindingNode>, Seq<u64>) {
    search_run(
        built_grid(tiles, rows, cols),
        rows,
        cols,
        (
            (start_pos_of(tiles, current_tile_id as int).0) as usize,
            (start_pos_of(tiles, current_tile_id as int).1) as usize,
        ),
        ((end_pos_of(tiles).0) as usize, (end_pos_of(tiles).1) as usize),
        aggressive,
    )
}

/// A grid built from a well-formed snapshot has unique identities and is
/// fresh: one cell sits at every position, and identities are unique.
proof fn lemma_grid_from_tiles(g: Seq<Vec<Node>>, tiles: Seq<Tile>, rows: int, cols: int)
    requires
        tiles_wf(tiles, rows, cols),
        grid_shape(g, rows, cols),
        grid_positions(g, rows, cols),
        nodes_match_tiles(g, tiles, rows, cols),
        forall|i: int, j: int|
            0 <= i < rows && 0 <= j < cols ==> (#[trigger] node_at(g, i, j)).distance == u64::MAX,
    ensures
        grid_ids_unique(g, rows, cols),
        grid_fresh(g, rows, cols),
{
    assert forall|i: int, j: int| 0 <= i < rows && 0 <= j < cols implies (#[trigger] node_at(
        g,
        i,
        j,
    )).distance == u64::MAX && (node_at(g, i, j).visited <==> node_at(g, i, j).is_wall) by {
        assert(has_tile_at(tiles, i, j));
        let k = choose|k: int|
            0 <= k < tiles.len() && (#[trigger] tiles[k]).row == i && tiles[k].col == j;
        assert(node_at(g, tiles[k].row as int, tiles[k].col as int).visited == (tiles[k].tile_type
            == TileType::Wall));
    }
    assert forall|i1: int, j1: int, i2: int, j2: int|
        0 <= i1 < rows && 0 <= j1 < cols && 0 <= i2 < rows && 0 <= j2 < cols && (i1, j1) != (
        i2,
        j2,
        ) implies (#[trigger] node_at(g, i1, j1)).tile_id != (#[trigger] node_at(
        g,
        i2,
        j2,
    )).tile_id by {
        assert(has_tile_at(tiles, i1, j1));
        assert(has_tile_at(tiles, i2, j2));
        let k1 = choose|k: int|
            0 <= k < tiles.len() && (#[trigger] tiles[k]).row == i1 && tiles[k].col == j1;
        let k2 = choose|k: int|
            0 <= k < tiles.len() && (#[trigger] tiles[k]).row == i2 && tiles[k].col == j2;
        assert(k1 != k2);
        assert(tiles[k1].id != tiles[k2].id);
    }
}

/// The search's event facts, stated over the node grid, carry over to the
/// input cells the grid was built from.
proof fn lemma_events_to_tiles(
    ev: Seq<PathfindingNode>,
    g: Seq<Vec<Node>>,
    tiles: Seq<Tile>,
    rows: int,
    cols: int,
    ei: int,
    ej: int,
)
    requires
        tiles_wf(tiles, rows, cols),
        grid_shape(g, rows, cols),
        grid_positions(g, rows, cols),
        nodes_match_tiles(g, tiles, rows, cols),
        forall|k: int|
            0 <= k < ev.len() ==> exists|i: int, j: int|
                0 <= i < rows && 0 <= j < cols && !(#[trigger] node_at(g, i, j)).is_wall && (i, j)
                    != (ei, ej) && node_at(g, i, j).tile_id == (#[trigger] ev[k]).tile_id,
        (ei, ej) == end_pos_of(tiles),
    ensures
        forall|k: int|
            0 <= k < ev.len() ==> exists|m: int|
                0 <= m < tiles.len() && (#[trigger] tiles[m]).id == (#[trigger] ev[k]).tile_id
                    && tiles[m].tile_type != TileType::Wall && (tiles[m].row as int,
                tiles[m].col as int) != end_pos_of(tiles),
        forall|k: int, m: int|
            0 <= k < ev.len() && 0 <= m < tiles.len() && (#[trigger] tiles[m]).tile_type
                == TileType::Wall ==> (#[trigger] ev[k]).tile_id != tiles[m].id,
        forall|k: int, m: int|
            0 <= k < ev.len() && 0 <= m < tiles.len() && (#[trigger] tiles[m]).tile_type
                == TileType::End ==> (#[trigger] ev[k]).tile_id != tiles[m].id,
{
    assert forall|k: int| 0 <= k < ev.len() implies exists|m: int|
        0 <= m < tiles.len() && (#[trigger] tiles[m]).id == (#[trigger] ev[k]).tile_id
            && tiles[m].tile_type != TileType::Wall && (tiles[m].row as int, tiles[m].col as int)
            != end_pos_of(tiles) by {
        let (i, j): (int, int) = choose|i: int, j: int|
            0 <= i < rows && 0 <= j < cols && !(#[trigger] node_at(g, i, j)).is_wall && (i, j) != (
            ei,
            ej,
            ) && node_at(g, i, j).tile_id == ev[k].tile_id;
        assert(has_tile_at(tiles, i, j));
        let m = choose|m: int|
            0 <= m < tiles.len() && (#[trigger] tiles[m]).row == i && tiles[m].col == j;
        assert(node_at(g, tiles[m].row as int, tiles[m].col as int).tile_id == tiles[m].id);
        assert(tiles[m].id == ev[k].tile_id && tiles[m].tile_type != TileType::Wall);
    }
    assert forall|k: int, m: int|
        0 <= k < ev.len() && 0 <= m < tiles.len() && (#[trigger] tiles[m]).tile_type
            == TileType::Wall implies (#[trigger] ev[k]).tile_id != tiles[m].id by {
        let (i, j): (int, int) = choose|i: int, j: int|
            0 <= i < rows && 0 <= j < cols && !(#[trigger] node_at(g, i, j)).is_wall && (i, j) != (
            ei,
            ej,
            ) && node_at(g, i, j).tile_id == ev[k].tile_id;
        assert(has_tile_at(tiles, i, j));
        let m2 = choose|m2: int|
            0 <= m2 < tiles.len() && (#[trigger] tiles[m2]).row == i && tiles[m2].col == j;
        assert(tiles[m2].id == ev[k].tile_id && tiles[m2].tile_type != TileType::Wall);
        assert(m != m2);
        assert(tiles[m].id != tiles[m2].id);
    }
    assert forall|k: int, m: int|
        0 <= k < ev.len() && 0 <= m < tiles.len() && (#[trigger] tiles[m]).tile_type
            == TileType::End implies (#[trigger] ev[k]).tile_id != tiles[m].id by {
        let (i, j): (int, int) = choose|i: int, j: int|
            0 <= i < rows && 0 <= j < cols && !(#[trigger] node_at(g, i, j)).is_wall && (i, j) != (
            ei,
            ej,
            ) && node_at(g, i, j).tile_id == ev[k].tile_id;
        assert(has_tile_at(tiles, i, j));
        let m2 = choose|m2: int|
            0 <= m2 < tiles.len() && (#[trigger] tiles[m2]).row == i && tiles[m2].col == j;
        assert(tiles[m2].id == ev[k].tile_id);
        // The end position is exactly the End cell's position.
        let me = choose|me: int|
            0 <= me < tiles.len() && (#[trigger] tiles[me]).tile_type == TileType::End;
        assert(me == m);
        assert((tiles[m].row as int, tiles[m].col as int) == (ei, ej));
        assert(m != m2);
        assert(tiles[m].id != tiles[m2].id);
    }
}

/// One cell is read into its node: the prefix of cells already read stays
/// read, untouched positions stay fresh, and the grid's shape, positions and
/// sentinel distances are kept.
proof fn lemma_fill_step(
    gp: Seq<Vec<Node>>,
    g: Seq<Vec<Node>>,
    tiles: Seq<Tile>,
    m: int,
    nd: Node,
    rows: int,
    cols: int,
)
    requires
        tiles_wf(tiles, rows, cols),
        0 <= m < tiles.len(),
        grid_shape(gp, rows, cols),
        grid_positions(gp, rows, cols),
        forall|i2: int, j2: int|
            0 <= i2 < rows && 0 <= j2 < cols ==> (#[trigger] node_at(gp, i2, j2)).distance
                == u64::MAX,
        forall|m2: int|
            0 <= m2 < m ==> node_at(gp, (#[trigger] tiles[m2]).row as int,
                tiles[m2].col as int).tile_id == tiles[m2].id && node_at(gp, tiles[m2].row as int,
                tiles[m2].col as int).is_wall == (tiles[m2].tile_type == TileType::Wall) && node_at(
                gp,
                tiles[m2].row as int,
                tiles[m2].col as int,
            ).visited == (tiles[m2].tile_type == TileType::Wall),
        forall|i2: int, j2: int|
            0 <= i2 < rows && 0 <= j2 < cols && !(exists|m2: int|
                0 <= m2 < m && (#[trigger] tiles[m2]).row == i2 && tiles[m2].col == j2) ==> !(
            #[trigger] node_at(gp, i2, j2)).visited && !node_at(gp, i2, j2).is_wall,
        forall|i2: int, j2: int|
            0 <= i2 < rows && 0 <= j2 < cols ==> (#[trigger] node_at(gp, i2, j2)).previous_node
                is None,
        nd.row == tiles[m].row,
        nd.col == tiles[m].col,
        nd.tile_id == tiles[m].id,
        nd.distance == u64::MAX,
        nd.is_wall == (tiles[m].tile_type == TileType::Wall),
        nd.visited == (tiles[m].tile_type == TileType::Wall),
        nd.previous_node is None,
        g.len() == gp.len(),
        forall|i2: int| 0 <= i2 < rows && i2 != tiles[m].row as int ==> #[trigger] g[i2] == gp[i2],
        g[tiles[m].row as int]@ == gp[tiles[m].row as int]@.update(tiles[m].col as int, nd),
    ensures
        grid_shape(g, rows, cols),
        grid_positions(g, rows, cols),
        forall|i2: int, j2: int|
            0 <= i2 < rows && 0 <= j2 < cols ==> (#[trigger] node_at(g, i2, j2)).distance
                == u64::MAX,
        forall|m2: int|
            0 <= m2 < m + 1 ==> node_at(g, (#[trigger] tiles[m2]).row as int,
                tiles[m2].col as int).tile_id == tiles[m2].id && node_at(g, tiles[m2].row as int,
                tiles[m2].col as int).is_wall == (tiles[m2].tile_type == TileType::Wall) && node_at(
                g,
                tiles[m2].row as int,
                tiles[m2].col as int,
            ).visited == (tiles[m2].tile_type == TileType::Wall),
        forall|i2: int, j2: int|
            0 <= i2 < rows && 0 <= j2 < cols && !(exists|m2: int|
                0 <= m2 < m + 1 && (#[trigger] tiles[m2]).row == i2 && tiles[m2].col == j2) ==> !(
            #[trigger] node_at(g, i2, j2)).visited && !node_at(g, i2, j2).is_wall,
        forall|i2: int, j2: int|
            0 <= i2 < rows && 0 <= j2 < cols ==> (#[trigger] node_at(g, i2, j2)).previous_node
                is None,
{
    let tr = tiles[m].row as int;
    let tc = tiles[m].col as int;
    assert forall|i2: int, j2: int|
        0 <= i2 < rows && 0 <= j2 < cols && (i2, j2) != (tr, tc) implies node_at(g, i2, j2)
        == node_at(gp, i2, j2) by {
        if i2 != tr {
            assert(g[i2] == gp[i2]);
        }
    }
    assert(node_at(g, tr, tc) == nd);
    assert forall|i2: int| 0 <= i2 < rows implies (#[trigger] g[i2])@.len() == cols by {
        if i2 != tr {
            assert(g[i2] == gp[i2]);
        }
    }
    assert forall|m2: int| 0 <= m2 < m + 1 implies node_at(g, (#[trigger] tiles[m2]).row as int,
        tiles[m2].col as int).tile_id == tiles[m2].id && node_at(g, tiles[m2].row as int,
        tiles[m2].col as int).is_wall == (tiles[m2].tile_type == TileType::Wall) && node_at(
        g,
        tiles[m2].row as int,
        tiles[m2].col as int,
    ).visited == (tiles[m2].tile_type == TileType::Wall) by {
        if m2 < m {
            assert((tiles[m2].row, tiles[m2].col) != (tiles[m].row, tiles[m].col));
            assert(node_at(g, tiles[m2].row as int, tiles[m2].col as int) == node_at(
                gp,
                tiles[m2].row as int,
                tiles[m2].col as int,
            ));
        }
    }
    assert forall|i2: int, j2: int|
        0 <= i2 < rows && 0 <= j2 < cols && !(exists|m2: int|
            0 <= m2 < m + 1 && (#[trigger] tiles[m2]).row == i2 && tiles[m2].col == j2) implies !(
    #[trigger] node_at(g, i2, j2)).visited && !node_at(g, i2, j2).is_wall by {
        assert((i2, j2) != (tr, tc));
        assert(node_at(g, i2, j2) == node_at(gp, i2, j2));
    }
    assert forall|i2: int, j2: int| 0 <= i2 < rows && 0 <= j2 < cols implies (#[trigger] node_at(
        g,
        i2,
        j2,
    )).previous_node is None by {
        if (i2, j2) != (tr, tc) {
            assert(node_at(g, i2, j2) == node_at(gp, i2, j2));
        }
    }
}

/// Builds the search-node grid from the input cells, resolves the start
/// position (the cell whose identifier is `current_tile_id`) and the end
/// position (the unique `End` cell), pre-marks wall nodes visited, and runs
/// the search, returning its event sequence unchanged.
///
/// A missing `End` cell and an unknown `current_tile_id` both fall back
/// silently to position `(0, 0)`.
#[verifier::rlimit(100)]
pub fn setup_and_run_astar(
    grid: &Vec<Tile>,
    rows: usize,
    cols: usize,
    current_tile_id: usize,
    is_aggressive: bool,
) -> (out: Vec<PathfindingNode>)
    requires
        dims_ok(rows as int, cols as int),
        tiles_wf(grid@, rows as int, cols as int),
    ensures
        events_visited_only(out@),
        events_distinct(out@),
        forall|k: int|
            0 <= k < out@.len() ==> exists|m: int|
                0 <= m < grid@.len() && (#[trigger] grid@[m]).id == (#[trigger] out@[k]).tile_id
                    && grid@[m].tile_type != TileType::Wall && (grid@[m].row as int,
                grid@[m].col as int) != end_pos_of(grid@),
        forall|k: int, m: int|
            0 <= k < out@.len() && 0 <= m < grid@.len() && (#[trigger] grid@[m]).tile_type
                == TileType::Wall ==> (#[trigger] out@[k]).tile_id != grid@[m].id,
        forall|k: int, m: int|
            0 <= k < out@.len() && 0 <= m < grid@.len() && (#[trigger] grid@[m]).tile_type
                == TileType::End ==> (#[trigger] out@[k]).tile_id != grid@[m].id,
        start_pos_of(grid@, current_tile_id as int) == end_pos_of(grid@) ==> out@.len() == 0,
        (exists|m: int|
            0 <= m < grid@.len() && (#[trigger] grid@[m]).id == current_tile_id
                && grid@[m].tile_type == TileType::Wall) ==> out@.len() == 0,
        out@ == setup_run(grid@, rows, cols, current_tile_id, is_aggressive).0,
        setup_run(grid@, rows, cols, current_tile_id, is_aggressive).1.len() == out@.len(),
        fin_sorted(setup_run(grid@, rows, cols, current_tile_id, is_aggressive).1),
        fin_real(setup_run(grid@, rows, cols, current_tile_id, is_aggressive).1),
{
    // Build the dense grid of fresh nodes.
    let mut nodes: Vec<Vec<Node>> = Vec::new();
    let mut i: usize = 0;
    while i < rows
        invariant
            i <= rows,
            nodes@.len() == i,
            forall|i2: int| 0 <= i2 < i ==> (#[trigger] nodes@[i2])@.len() == cols,
            forall|i2: int, j2: int|
                0 <= i2 < i && 0 <= j2 < cols ==> (#[trigger] node_at(nodes@, i2, j2)).row == i2
                    && node_at(nodes@, i2, j2).col == j2 && node_at(nodes@, i2, j2).tile_id == 0
                    && node_at(nodes@, i2, j2).distance == u64::MAX && !node_at(
                    nodes@,
                    i2,
                    j2,
                ).visited && !node_at(nodes@, i2, j2).is_wall && node_at(
                    nodes@,
                    i2,
                    j2,
                ).previous_node is None,
        decreases rows - i,
    {
        let mut rowv: Vec<Node> = Vec::new();
        let mut j: usize = 0;
        while j < cols
            invariant
                j <= cols,
                rowv@.len() == j,
                forall|j2: int|
                    0 <= j2 < j ==> (#[trigger] rowv@[j2]).row == i && rowv@[j2].col == j2
                        && rowv@[j2].tile_id == 0 && rowv@[j2].distance == u64::MAX
                        && !rowv@[j2].visited && !rowv@[j2].is_wall && rowv@[j2].previous_node
                        is None,
            decreases cols - j,
        {
            rowv.push(
                Node {
                    row: i,
                    col: j,
                    tile_id: 0,
                    distance: u64::MAX,
                    visited: false,
                    is_wall: false,
                    previous_node: None,
                },
            );
            j = j + 1;
        }
        let ghost pn: Seq<Vec<Node>> = nodes@;
        nodes.push(rowv);
        proof {
            assert forall|i2: int, j2: int| 0 <= i2 < i + 1 && 0 <= j2 < cols implies (
            #[trigger] node_at(nodes@, i2, j2)).row == i2 && node_at(nodes@, i2, j2).col == j2
                && node_at(nodes@, i2, j2).tile_id == 0 && node_at(nodes@, i2, j2).distance
                == u64::MAX && !node_at(nodes@, i2, j2).visited && !node_at(
                nodes@,
                i2,
                j2,
            ).is_wall && node_at(nodes@, i2, j2).previous_node is None by {
                if i2 < i {
                    assert(nodes@[i2] == pn[i2]);
                    assert(node_at(nodes@, i2, j2) == node_at(pn, i2, j2));
                } else {
                    assert(nodes@[i2] == rowv);
                }
            }
        }
        i = i + 1;
    }
    // Read every cell into its node; resolve the start and end positions.
    let mut end_tile_pos: Option<(usize, usize)> = None;
    let mut current_tile_pos: (usize, usize) = (0, 0);
    let mut m: usize = 0;
    while m < grid.len()
        invariant
            m <= grid@.len(),
            dims_ok(rows as int, cols as int),
            tiles_wf(grid@, rows as int, cols as int),
            grid_shape(nodes@, rows as int, cols as int),
            grid_positions(nodes@, rows as int, cols as int),
            forall|i2: int, j2: int|
                0 <= i2 < rows && 0 <= j2 < cols ==> (#[trigger] node_at(
                    nodes@,
                    i2,
                    j2,
                )).distance == u64::MAX,
            forall|i2: int, j2: int|
                0 <= i2 < rows && 0 <= j2 < cols ==> (#[trigger] node_at(
                    nodes@,
                    i2,
                    j2,
                )).previous_node is None,
            forall|m2: int|
                0 <= m2 < m ==> node_at(nodes@, (#[trigger] grid@[m2]).row as int,
                    grid@[m2].col as int).tile_id == grid@[m2].id && node_at(nodes@,
                    grid@[m2].row as int, grid@[m2].col as int).is_wall == (grid@[m2].tile_type
                    == TileType::Wall) && node_at(nodes@, grid@[m2].row as int,
                    grid@[m2].col as int).visited == (grid@[m2].tile_type == TileType::Wall),
            forall|i2: int, j2: int|
                0 <= i2 < rows && 0 <= j2 < cols && !(exists|m2: int|
                    0 <= m2 < m && (#[trigger] grid@[m2]).row == i2 && grid@[m2].col == j2) ==> !(
                #[trigger] node_at(nodes@, i2, j2)).visited && !node_at(nodes@, i2, j2).is_wall,
            match end_tile_pos {
                None => forall|m2: int|
                    0 <= m2 < m ==> (#[trigger] grid@[m2]).tile_type != TileType::End,
                Some(p) => exists|m2: int|
                    0 <= m2 < m && (#[trigger] grid@[m2]).tile_type == TileType::End && p.0
                        == grid@[m2].row && p.1 == grid@[m2].col,
            },
            (exists|m2: int| 0 <= m2 < m && (#[trigger] grid@[m2]).id == current_tile_id)
                ==> exists|m2: int|
                0 <= m2 < m && (#[trigger] grid@[m2]).id == current_tile_id
                    && current_tile_pos.0 == grid@[m2].row && current_tile_pos.1 == grid@[m2].col,
            (forall|m2: int| 0 <= m2 < m ==> (#[trigger] grid@[m2]).id != current_tile_id)
                ==> current_tile_pos.0 == 0 && current_tile_pos.1 == 0,
        decreases grid@.len() - m,
    {
        let t: Tile = grid[m];
        proof {
            assert(t == grid@[m as int]);
        }
        if t.tile_type == TileType::End {
            end_tile_pos = Some((t.row, t.col));
        }
        if t.id == current_tile_id {
            current_tile_pos = (t.row, t.col);
        }
        let mut nd: Node = nodes[t.row][t.col];
        nd.tile_id = t.id;
        if t.tile_type == TileType::Wall {
            nd.visited = true;
            nd.is_wall = true;
        }
        proof {
            // No earlier cell sits at this position, so the node was fresh.
            if exists|m2: int|
                0 <= m2 < m && (#[trigger] grid@[m2]).row == t.row && grid@[m2].col == t.col {
                let m2 = choose|m2: int|
                    0 <= m2 < m && (#[trigger] grid@[m2]).row == t.row && grid@[m2].col == t.col;
                assert((grid@[m2].row, grid@[m2].col) != (grid@[m as int].row, grid@[m as
                    int].col));
                assert(false);
            }
            assert(!node_at(nodes@, t.row as int, t.col as int).visited && !node_at(
                nodes@,
                t.row as int,
                t.col as int,
            ).is_wall);
        }
        let ghost gp: Seq<Vec<Node>> = nodes@;
        nodes[t.row][t.col] = nd;
        proof {
            assert(nodes@[t.row as int]@ == gp[t.row as int]@.update(t.col as int, nd));
            assert(forall|i2: int|
                0 <= i2 < rows && i2 != t.row as int ==> #[trigger] nodes@[i2] == gp[i2]);
            lemma_fill_step(gp, nodes@, grid@, m as int, nd, rows as int, cols as int);
        }
        m = m + 1;
    }
    proof {
        assert(nodes_match_tiles(nodes@, grid@, rows as int, cols as int));
        lemma_grid_from_tiles(nodes@, grid@, rows as int, cols as int);
        // The resolved end position is the End cell's position, or (0, 0).
        match end_tile_pos {
            None => {
                assert(!exists|k: int|
                    0 <= k < grid@.len() && (#[trigger] grid@[k]).tile_type == TileType::End);
                assert(end_pos_spec(end_tile_pos) == end_pos_of(grid@));
            },
            Some(p) => {
                let m2 = choose|m2: int|
                    0 <= m2 < grid@.len() && (#[trigger] grid@[m2]).tile_type == TileType::End
                        && p.0 == grid@[m2].row && p.1 == grid@[m2].col;
                let k0 = choose|k: int|
                    0 <= k < grid@.len() && (#[trigger] grid@[k]).tile_type == TileType::End;
                assert(k0 == m2);
                assert(end_pos_spec(end_tile_pos) == end_pos_of(grid@));
                assert(p.0 < rows && p.1 < cols);
            },
        }
        // The resolved start position is the matching cell's position, or
        // (0, 0).
        if exists|m2: int| 0 <= m2 < grid@.len() && (#[trigger] grid@[m2]).id == current_tile_id {
            let m2 = choose|m2: int|
                0 <= m2 < grid@.len() && (#[trigger] grid@[m2]).id == current_tile_id
                    && current_tile_pos.0 == grid@[m2].row && current_tile_pos.1 == grid@[m2].col;
            let k0 = choose|k: int|
                0 <= k < grid@.len() && (#[trigger] grid@[k]).id == current_tile_id as int;
            assert(grid@[k0].id == grid@[m2].id);
            assert(k0 == m2);
            assert((current_tile_pos.0 as int, current_tile_pos.1 as int) == start_pos_of(
                grid@,
                current_tile_id as int,
            ));
            assert(current_tile_pos.0 < rows && current_tile_pos.1 < cols);
        } else {
            assert(forall|m2: int|
                0 <= m2 < grid@.len() ==> (#[trigger] grid@[m2]).id != current_tile_id);
            assert((current_tile_pos.0 as int, current_tile_pos.1 as int) == start_pos_of(
                grid@,
                current_tile_id as int,
            ));
        }
    }
    let ghost gnodes: Seq<Vec<Node>> = nodes@;
    proof {
        // The built grid is exactly the specification-level one.
        assert forall|i: int, j: int| 0 <= i < rows && 0 <= j < cols implies gview(gnodes)[i][j]
            == built_node(grid@, i, j) by {
            assert(has_tile_at(grid@, i, j));
            let kk = choose|k: int|
                0 <= k < grid@.len() && (#[trigger] grid@[k]).row == i && grid@[k].col == j;
            assert(node_at(gnodes, grid@[kk].row as int, grid@[kk].col as int).tile_id
                == grid@[kk].id);
            assert(gview(gnodes)[i][j] == node_at(gnodes, i, j));
        }
        assert(gview(gnodes) =~~= built_grid(grid@, rows, cols));
    }
    let result: (Vec<PathfindingNode>, Ghost<Seq<u64>>) = astar(
        nodes,
        rows,
        cols,
        current_tile_pos,
        end_tile_pos,
        is_aggressive,
    );
    let out: Vec<PathfindingNode> = result.0;
    proof {
        let ei: int = end_pos_spec(end_tile_pos).0;
        let ej: int = end_pos_spec(end_tile_pos).1;
        lemma_events_to_tiles(out@, gnodes, grid@, rows as int, cols as int, ei, ej);
        // The returned events are exactly the specification-level run.
        assert(current_tile_pos.0 == (start_pos_of(grid@, current_tile_id as int).0) as usize);
        assert(current_tile_pos.1 == (start_pos_of(grid@, current_tile_id as int).1) as usize);
        assert(resolved_end(end_tile_pos).0 == (end_pos_of(grid@).0) as usize);
        assert(resolved_end(end_tile_pos).1 == (end_pos_of(grid@).1) as usize);
        assert(out@ == setup_run(grid@, rows, cols, current_tile_id, is_aggressive).0);
        assert(result.1@ == setup_run(grid@, rows, cols, current_tile_id, is_aggressive).1);
    }
    out
}

/// Determinism: identical inputs yield bit-identical output sequences.
/// `setup_and_run_astar` ensures its result equals `setup_run` of its
/// arguments, so any two results of equal-input calls are equal.
pub proof fn lemma_setup_deterministic(
    tiles: Seq<Tile>,
    rows: usize,
    cols: usize,
    current_tile_id: usize,
    aggressive: bool,
    a: Seq<PathfindingNode>,
    b: Seq<PathfindingNode>,
)
    requires
        a == setup_run(tiles, rows, cols, current_tile_id, aggressive).0,
        b == setup_run(tiles, rows, cols, current_tile_id, aggressive).0,
    ensures
        a == b,
{
}

/// An unknown start identifier falls back silently to position `(0, 0)`:
/// the run is the same as one started from the cell that sits there.
pub proof fn lemma_unknown_start_fallback(
    tiles: Seq<Tile>,
    rows: usize,
    cols: usize,
    unknown_id: usize,
    origin_id: usize,
    aggressive: bool,
)
    requires
        tile_ids_unique(tiles),
        forall|m: int| 0 <= m < tiles.len() ==> (#[trigger] tiles[m]).id != unknown_id,
        exists|m: int|
            0 <= m < tiles.len() && (#[trigger] tiles[m]).id == origin_id && tiles[m].row == 0
                && tiles[m].col == 0,
    ensures
        setup_run(tiles, rows, cols, unknown_id, aggressive) == setup_run(
            tiles,
            rows,
            cols,
            origin_id,
            aggressive,
        ),
{
    assert(!exists|k: int| 0 <= k < tiles.len() && (#[trigger] tiles[k]).id == unknown_id as int);
    assert(start_pos_of(tiles, unknown_id as int) == (0int, 0int));
    let m = choose|m: int|
        0 <= m < tiles.len() && (#[trigger] tiles[m]).id == origin_id && tiles[m].row == 0
            && tiles[m].col == 0;
    assert(exists|k: int| 0 <= k < tiles.len() && (#[trigger] tiles[k]).id == origin_id as int);
    let k0 = choose|k: int| 0 <= k < tiles.len() && (#[trigger] tiles[k]).id == origin_id as int;
    assert(tiles[k0].id == tiles[m].id);
    assert(k0 == m);
    assert(start_pos_of(tiles, origin_id as int) == (0int, 0int));
}

/// A missing end position falls back silently to `(0, 0)`: the search
/// behaves exactly as if `(0, 0)` had been given.
pub proof fn lemma_missing_end_fallback(
    g0: Seq<Seq<Node>>,
    rows: usize,
    cols: usize,
    start: (usize, usize),
    aggressive: bool,
)
    ensures
        search_run(g0, rows, cols, start, resolved_end(None), aggressive) == search_run(
            g0,
            rows,
            cols,
            start,
            resolved_end(Some((0usize, 0usize))),
            aggressive,
        ),
{
}

} // verus!

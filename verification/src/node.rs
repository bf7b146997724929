use vstd::prelude::*;

verus! {

/// Per-cell mutable search state. One node exists per grid position; a fresh
/// grid of nodes is built for every search invocation.
#[derive(Clone, Copy)]
pub struct Node {
    pub row: usize,
    pub col: usize,
    /// Identity borrowed from the corresponding input cell.
    pub tile_id: usize,
    /// Best known cost to reach this cell; `u64::MAX` is the unreached
    /// sentinel.
    pub distance: u64,
    /// Finalized flag; walls are pre-marked visited so they are never
    /// expanded.
    pub visited: bool,
    pub is_wall: bool,
    /// Backpointer to the position that produced the current best distance.
    pub previous_node: Option<(usize, usize)>,
}

/// The node stored at position `(i, j)`.
pub open spec fn node_at(g: Seq<Vec<Node>>, i: int, j: int) -> Node {
    g[i]@[j]
}

/// The grid of nodes is a dense `rows` x `cols` array.
pub open spec fn grid_shape(g: Seq<Vec<Node>>, rows: int, cols: int) -> bool {
    &&& g.len() == rows
    &&& forall|i: int| 0 <= i < rows ==> (#[trigger] g[i])@.len() == cols
}

/// Every node records its own position.
pub open spec fn grid_positions(g: Seq<Vec<Node>>, rows: int, cols: int) -> bool {
    forall|i: int, j: int|
        0 <= i < rows && 0 <= j < cols ==> (#[trigger] node_at(g, i, j)).row == i && node_at(
            g,
            i,
            j,
        ).col == j
}

/// No two nodes share a tile identifier.
pub open spec fn grid_ids_unique(g: Seq<Vec<Node>>, rows: int, cols: int) -> bool {
    forall|i1: int, j1: int, i2: int, j2: int|
        0 <= i1 < rows && 0 <= j1 < cols && 0 <= i2 < rows && 0 <= j2 < cols && (i1, j1) != (
        i2,
        j2,
        ) ==> (#[trigger] node_at(g, i1, j1)).tile_id != (#[trigger] node_at(g, i2, j2)).tile_id
}

/// A freshly built grid: every distance at the sentinel and exactly the wall
/// nodes already marked visited.
pub open spec fn grid_fresh(g: Seq<Vec<Node>>, rows: int, cols: int) -> bool {
    forall|i: int, j: int|
        0 <= i < rows && 0 <= j < cols ==> (#[trigger] node_at(g, i, j)).distance == u64::MAX && (
        node_at(g, i, j).visited <==> node_at(g, i, j).is_wall)
}

/// Number of unvisited nodes in one row; with `grid_unvisited`, the
/// termination measure of the search loop.
pub open spec fn row_unvisited(r: Seq<Node>) -> nat
    decreases r.len(),
{
    if r.len() == 0 {
        0
    } else {
        row_unvisited(r.drop_last()) + (if r.last().visited {
            0nat
        } else {
            1nat
        })
    }
}

/// Number of unvisited nodes in the whole grid.
pub open spec fn grid_unvisited(g: Seq<Seq<Node>>) -> nat
    decreases g.len(),
{
    if g.len() == 0 {
        0
    } else {
        grid_unvisited(g.drop_last()) + row_unvisited(g.last())
    }
}

/// The grid of node rows, each row seen as a sequence.
pub open spec fn gview(g: Seq<Vec<Node>>) -> Seq<Seq<Node>> {
    Seq::new(g.len(), |i: int| g[i]@)
}

/// Sum of the tentative distances in one row; with `grid_dist_sum`, the
/// termination measure of the specification-level search: every relaxation
/// strictly lowers one node's distance.
pub open spec fn row_dist_sum(r: Seq<Node>) -> nat
    decreases r.len(),
{
    if r.len() == 0 {
        0
    } else {
        row_dist_sum(r.drop_last()) + r.last().distance as nat
    }
}

/// Sum of the tentative distances in the whole grid.
pub open spec fn grid_dist_sum(g: Seq<Seq<Node>>) -> nat
    decreases g.len(),
{
    if g.len() == 0 {
        0
    } else {
        grid_dist_sum(g.drop_last()) + row_dist_sum(g.last())
    }
}

/// Replacing one node changes the row's distance sum exactly by the change
/// in the node's own distance.
pub proof fn lemma_row_dist_update(r: Seq<Node>, j: int, v: Node)
    requires
        0 <= j < r.len(),
    ensures
        row_dist_sum(r.update(j, v)) + r[j].distance as nat == row_dist_sum(r) + v.distance as nat,
    decreases r.len(),
{
    let r2 = r.update(j, v);
    if j == r.len() - 1 {
        assert(r2.drop_last() =~= r.drop_last());
        assert(r2.last() == v);
    } else {
        assert(r2.drop_last() =~= r.drop_last().update(j, v));
        assert(r2.last() == r.last());
        lemma_row_dist_update(r.drop_last(), j, v);
    }
}

/// Replacing one node changes the grid's distance sum exactly by the change
/// in the node's own distance.
pub proof fn lemma_grid_dist_update(g: Seq<Seq<Node>>, i: int, j: int, v: Node)
    requires
        0 <= i < g.len(),
        0 <= j < g[i].len(),
    ensures
        grid_dist_sum(g.update(i, g[i].update(j, v))) + g[i][j].distance as nat == grid_dist_sum(g)
            + v.distance as nat,
    decreases g.len(),
{
    let g2 = g.update(i, g[i].update(j, v));
    if i == g.len() - 1 {
        assert(g2.drop_last() =~= g.drop_last());
        assert(g2.last() =~= g.last().update(j, v));
        lemma_row_dist_update(g.last(), j, v);
    } else {
        assert(g2.drop_last() =~= g.drop_last().update(i, g.drop_last()[i].update(j, v)));
        assert(g2.last() == g.last());
        lemma_grid_dist_update(g.drop_last(), i, j, v);
    }
}

/// Replacing one node changes the row's unvisited count exactly by the
/// change in the node's own visited flag.
pub proof fn lemma_row_unvisited_update(r: Seq<Node>, j: int, v: Node)
    requires
        0 <= j < r.len(),
    ensures
        row_unvisited(r.update(j, v)) + (if r[j].visited {
            0nat
        } else {
            1nat
        }) == row_unvisited(r) + (if v.visited {
            0nat
        } else {
            1nat
        }),
    decreases r.len(),
{
    let r2 = r.update(j, v);
    if j == r.len() - 1 {
        assert(r2.drop_last() =~= r.drop_last());
        assert(r2.last() == v);
    } else {
        assert(r2.drop_last() =~= r.drop_last().update(j, v));
        assert(r2.last() == r.last());
        lemma_row_unvisited_update(r.drop_last(), j, v);
    }
}

/// Replacing one node changes the grid's unvisited count exactly by the
/// change in the node's own visited flag.
pub proof fn lemma_grid_unvisited_update(g: Seq<Seq<Node>>, i: int, j: int, v: Node)
    requires
        0 <= i < g.len(),
        0 <= j < g[i].len(),
    ensures
        grid_unvisited(g.update(i, g[i].update(j, v))) + (if g[i][j].visited {
            0nat
        } else {
            1nat
        }) == grid_unvisited(g) + (if v.visited {
            0nat
        } else {
            1nat
        }),
    decreases g.len(),
{
    let g2 = g.update(i, g[i].update(j, v));
    if i == g.len() - 1 {
        assert(g2.drop_last() =~= g.drop_last());
        assert(g2.last() =~= g.last().update(j, v));
        lemma_row_unvisited_update(g.last(), j, v);
    } else {
        assert(g2.drop_last() =~= g.drop_last().update(i, g.drop_last()[i].update(j, v)));
        assert(g2.last() == g.last());
        lemma_grid_unvisited_update(g.drop_last(), i, j, v);
    }
}

} // verus!

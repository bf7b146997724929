use vstd::prelude::*;

verus! {

/// Category of an input cell record.
#[derive(Clone, Copy, Debug, PartialEq, Eq, Structural)]
pub enum TileType {
    Empty,
    Wall,
    Start,
    End,
}

/// An input cell: an externally owned record with a unique identity, a grid
/// position and a category. The search reads it and never mutates it.
#[derive(Clone, Copy, Debug, PartialEq, Eq, Structural)]
pub struct Tile {
    pub id: usize,
    pub row: usize,
    pub col: usize,
    pub tile_type: TileType,
}

/// Kind of an emitted search event. `Checked` is a reserved variant: the
/// search currently emits only `Visited`.
#[derive(Clone, Copy, Debug, PartialEq, Eq, Structural)]
pub enum PathfindingEventType {
    Visited,
    Checked,
}

/// One element of the output sequence: the identity of a finalized tile and
/// the kind of event that finalized it.
#[derive(Clone, Copy, Debug, PartialEq, Eq, Structural)]
pub struct PathfindingNode {
    pub tile_id: usize,
    pub event_type: PathfindingEventType,
}

/// Every cell lies inside the `rows` x `cols` grid.
pub open spec fn tiles_in_range(g: Seq<Tile>, rows: int, cols: int) -> bool {
    forall|k: int| 0 <= k < g.len() ==> (#[trigger] g[k]).row < rows && g[k].col < cols
}

/// No two cells share a position.
pub open spec fn tile_positions_unique(g: Seq<Tile>) -> bool {
    forall|k1: int, k2: int|
        0 <= k1 < g.len() && 0 <= k2 < g.len() && k1 != k2 ==> ((#[trigger] g[k1]).row, g[k1].col)
            != ((#[trigger] g[k2]).row, g[k2].col)
}

/// No two cells share an identifier.
pub open spec fn tile_ids_unique(g: Seq<Tile>) -> bool {
    forall|k1: int, k2: int|
        0 <= k1 < g.len() && 0 <= k2 < g.len() && k1 != k2 ==> (#[trigger] g[k1]).id != (
        #[trigger] g[k2]).id
}

/// Some cell sits at position `(i, j)`.
pub open spec fn has_tile_at(g: Seq<Tile>, i: int, j: int) -> bool {
    exists|k: int| 0 <= k < g.len() && (#[trigger] g[k]).row == i && g[k].col == j
}

/// Every grid position holds a cell.
pub open spec fn tiles_cover(g: Seq<Tile>, rows: int, cols: int) -> bool {
    forall|i: int, j: int| 0 <= i < rows && 0 <= j < cols ==> #[trigger] has_tile_at(g, i, j)
}

/// At most one cell is categorized `End`.
pub open spec fn at_most_one_end(g: Seq<Tile>) -> bool {
    forall|k1: int, k2: int|
        0 <= k1 < g.len() && 0 <= k2 < g.len() && (#[trigger] g[k1]).tile_type == TileType::End
            && (#[trigger] g[k2]).tile_type == TileType::End ==> k1 == k2
}

/// A well-formed input snapshot: one cell per grid position, in range, with
/// unique identifiers and at most one `End` cell.
pub open spec fn tiles_wf(g: Seq<Tile>, rows: int, cols: int) -> bool {
    &&& tiles_in_range(g, rows, cols)
    &&& tile_positions_unique(g)
    &&& tile_ids_unique(g)
    &&& tiles_cover(g, rows, cols)
    &&& at_most_one_end(g)
}

/// Position of the `End` cell; `(0, 0)` when no cell is categorized `End`.
pub open spec fn end_pos_of(g: Seq<Tile>) -> (int, int) {
    if exists|k: int| 0 <= k < g.len() && (#[trigger] g[k]).tile_type == TileType::End {
        let k = choose|k: int| 0 <= k < g.len() && (#[trigger] g[k]).tile_type == TileType::End;
        (g[k].row as int, g[k].col as int)
    } else {
        (0, 0)
    }
}

/// Position of the cell whose identifier is `id`; `(0, 0)` when none matches.
pub open spec fn start_pos_of(g: Seq<Tile>, id: int) -> (int, int) {
    if exists|k: int| 0 <= k < g.len() && (#[trigger] g[k]).id == id {
        let k = choose|k: int| 0 <= k < g.len() && (#[trigger] g[k]).id == id;
        (g[k].row as int, g[k].col as int)
    } else {
        (0, 0)
    }
}

} // verus!

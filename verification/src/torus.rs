use vstd::prelude::*;

verus! {

/// One index step of at most one cell on a ring of `n` cells: stepping past
/// either edge wraps to the opposite edge.
pub open spec fn wrap_spec(i: int, d: int, n: int) -> int {
    if i + d < 0 {
        i + d + n
    } else if i + d >= n {
        i + d - n
    } else {
        i + d
    }
}

/// Wraparound index arithmetic for one coordinate of a neighbor position.
pub fn wrap_index(i: usize, d: i64, n: usize) -> (r: usize)
    requires
        i < n,
        -1 <= d <= 1,
    ensures
        r < n,
        r as int == wrap_spec(i as int, d as int, n as int),
{
    if d < 0 {
        if i == 0 {
            n - 1
        } else {
            i - 1
        }
    } else if d > 0 {
        if i + 1 == n {
            0
        } else {
            i + 1
        }
    } else {
        i
    }
}

/// The `k`-th of the eight expansion offsets, in expansion order.
pub open spec fn direction_spec(k: int) -> (int, int) {
    if k == 0 {
        (-1, -1)
    } else if k == 1 {
        (1, -1)
    } else if k == 2 {
        (1, 1)
    } else if k == 3 {
        (-1, 1)
    } else if k == 4 {
        (0, 1)
    } else if k == 5 {
        (1, 0)
    } else if k == 6 {
        (0, -1)
    } else {
        (-1, 0)
    }
}

/// The eight-directional neighbor offsets (four diagonal, four cardinal).
pub fn direction(k: usize) -> (d: (i64, i64))
    requires
        k < 8,
    ensures
        (d.0 as int, d.1 as int) == direction_spec(k as int),
        -1 <= d.0 <= 1,
        -1 <= d.1 <= 1,
        !(d.0 == 0 && d.1 == 0),
{
    match k {
        0 => (-1, -1),
        1 => (1, -1),
        2 => (1, 1),
        3 => (-1, 1),
        4 => (0, 1),
        5 => (1, 0),
        6 => (0, -1),
        _ => (-1, 0),
    }
}

/// Toroidal adjacency: a node in row 0 has a cardinal neighbor in the last
/// row of the same column, a node in column 0 has a cardinal neighbor in the
/// last column of the same row, and a diagonal offset from `(0, 0)` combines
/// both wraps.
pub proof fn lemma_toroidal_adjacency(r: int, c: int, rows: int, cols: int)
    requires
        1 <= rows,
        1 <= cols,
        0 <= r < rows,
        0 <= c < cols,
    ensures
        direction_spec(7) == (-1int, 0int) && wrap_spec(0, -1, rows) == rows - 1 && wrap_spec(
            c,
            0,
            cols,
        ) == c,
        direction_spec(6) == (0int, -1int) && wrap_spec(r, 0, rows) == r && wrap_spec(0, -1, cols)
            == cols - 1,
        direction_spec(0) == (-1int, -1int) && wrap_spec(0, -1, rows) == rows - 1 && wrap_spec(
            0,
            -1,
            cols,
        ) == cols - 1,
{
}

} // verus!

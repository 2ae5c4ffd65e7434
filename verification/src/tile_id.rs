//! Tile identifiers: every tile of the pyramid is numbered along a Hilbert
//! curve, zoom level after zoom level, so that neighbours on the map are
//! neighbours in the archive.

use vstd::prelude::*;

verus! {

/// Number of tile columns (and rows) at zoom `z`.
pub open spec fn side(z: nat) -> int
    decreases z,
{
    if z == 0 {
        1
    } else {
        2 * side((z - 1) as nat)
    }
}

/// Number of tiles at zoom `z`.
pub open spec fn area(z: nat) -> int
    decreases z,
{
    if z == 0 {
        1
    } else {
        4 * area((z - 1) as nat)
    }
}

/// Identifier of the first tile of zoom `z`: all coarser levels come before.
pub open spec fn zoom_base(z: nat) -> int
    decreases z,
{
    if z == 0 {
        0
    } else {
        zoom_base((z - 1) as nat) + area((z - 1) as nat)
    }
}

/// Position of the cell `(x, y)` on the Hilbert curve that fills the square
/// grid with `side(k)` cells on a side. The curve runs through the quadrants
/// top-left (transposed), bottom-left, bottom-right, top-right (transposed
/// about the other diagonal).
pub open spec fn hilbert(k: nat, x: int, y: int) -> int
    decreases k,
{
    if k == 0 {
        0
    } else {
        let j = (k - 1) as nat;
        let s = side(j);
        if x < s && y < s {
            hilbert(j, y, x)
        } else if x < s {
            area(j) + hilbert(j, x, y - s)
        } else if y >= s {
            2 * area(j) + hilbert(j, x - s, y - s)
        } else {
            3 * area(j) + hilbert(j, s - 1 - y, 2 * s - 1 - x)
        }
    }
}

/// The cell at position `d` of the Hilbert curve over `side(k)` cells.
pub open spec fn hilbert_cell(k: nat, d: int) -> (int, int)
    decreases k,
{
    if k == 0 {
        (0, 0)
    } else {
        let j = (k - 1) as nat;
        let s = side(j);
        if d < area(j) {
            let c = hilbert_cell(j, d);
            (c.1, c.0)
        } else if d < 2 * area(j) {
            let c = hilbert_cell(j, d - area(j));
            (c.0, c.1 + s)
        } else if d < 3 * area(j) {
            let c = hilbert_cell(j, d - 2 * area(j));
            (c.0 + s, c.1 + s)
        } else {
            let c = hilbert_cell(j, d - 3 * area(j));
            (2 * s - 1 - c.1, s - 1 - c.0)
        }
    }
}

/// `(z, x, y)` names a tile of the pyramid.
pub open spec fn is_tile(z: nat, x: int, y: int) -> bool {
    0 <= x < side(z) && 0 <= y < side(z)
}

/// The identifier of the tile `(z, x, y)`; columns and rows wrap around the
/// grid of the zoom level.
pub open spec fn tile_id(z: nat, x: int, y: int) -> int {
    zoom_base(z) + hilbert(z, x % side(z), y % side(z))
}

proof fn lemma_side_area(k: nat)
    ensures
        side(k) >= 1,
        area(k) == side(k) * side(k),
        area(k) >= 1,
    decreases k,
{
    if k > 0 {
        lemma_side_area((k - 1) as nat);
        let s = side((k - 1) as nat);
        assert((2 * s) * (2 * s) == 4 * (s * s)) by (nonlinear_arith);
    }
}

proof fn lemma_sizes_monotone(a: nat, b: nat)
    requires
        a <= b,
    ensures
        1 <= side(a) <= side(b),
        1 <= area(a) <= area(b),
        0 <= zoom_base(a) <= zoom_base(b),
    decreases b,
{
    lemma_side_area(a);
    lemma_side_area(b);
    if b == 0 {
    } else if a < b {
        lemma_side_area((b - 1) as nat);
        lemma_sizes_monotone(a, (b - 1) as nat);
    } else {
        lemma_sizes_monotone((a - 1) as nat, (a - 1) as nat);
        lemma_side_area((a - 1) as nat);
    }
}

pub(crate) proof fn lemma_zoom_limits(z: nat)
    requires
        z <= 31,
    ensures
        1 <= side(z) <= 0x8000_0000,
        1 <= area(z) <= 0x4000_0000_0000_0000,
        0 <= zoom_base(z) <= 0x4000_0000_0000_0000,
{
    lemma_sizes_monotone(z, 31);
    assert(side(31) == 0x8000_0000) by {
        reveal_with_fuel(side, 32);
    }
    assert(area(31) == 0x4000_0000_0000_0000) by {
        reveal_with_fuel(area, 32);
    }
    lemma_zoom_base_bound(31);
}

/// There are fewer tiles on all coarser levels than on a level itself.
proof fn lemma_zoom_base_bound(z: nat)
    ensures
        0 <= zoom_base(z) < area(z),
    decreases z,
{
    if z > 0 {
        lemma_zoom_base_bound((z - 1) as nat);
    }
}

proof fn lemma_hilbert_range(k: nat, x: int, y: int)
    requires
        is_tile(k, x, y),
    ensures
        0 <= hilbert(k, x, y) < area(k),
    decreases k,
{
    if k > 0 {
        let j = (k - 1) as nat;
        let s = side(j);
        lemma_side_area(j);
        if x < s && y < s {
            lemma_hilbert_range(j, y, x);
        } else if x < s {
            lemma_hilbert_range(j, x, y - s);
        } else if y >= s {
            lemma_hilbert_range(j, x - s, y - s);
        } else {
            lemma_hilbert_range(j, s - 1 - y, 2 * s - 1 - x);
        }
    }
}

proof fn lemma_hilbert_cell_of_index(k: nat, x: int, y: int)
    requires
        is_tile(k, x, y),
    ensures
        hilbert_cell(k, hilbert(k, x, y)) == (x, y),
    decreases k,
{
    lemma_hilbert_range(k, x, y);
    if k > 0 {
        let j = (k - 1) as nat;
        let s = side(j);
        if x < s && y < s {
            lemma_hilbert_range(j, y, x);
            lemma_hilbert_cell_of_index(j, y, x);
        } else if x < s {
            lemma_hilbert_range(j, x, y - s);
            lemma_hilbert_cell_of_index(j, x, y - s);
        } else if y >= s {
            lemma_hilbert_range(j, x - s, y - s);
            lemma_hilbert_cell_of_index(j, x - s, y - s);
        } else {
            lemma_hilbert_range(j, s - 1 - y, 2 * s - 1 - x);
            lemma_hilbert_cell_of_index(j, s - 1 - y, 2 * s - 1 - x);
        }
    }
}

proof fn lemma_hilbert_index_of_cell(k: nat, d: int)
    requires
        0 <= d < area(k),
    ensures
        is_tile(k, hilbert_cell(k, d).0, hilbert_cell(k, d).1),
        hilbert(k, hilbert_cell(k, d).0, hilbert_cell(k, d).1) == d,
    decreases k,
{
    if k > 0 {
        let j = (k - 1) as nat;
        lemma_side_area(j);
        if d < area(j) {
            lemma_hilbert_index_of_cell(j, d);
        } else if d < 2 * area(j) {
            lemma_hilbert_index_of_cell(j, d - area(j));
        } else if d < 3 * area(j) {
            lemma_hilbert_index_of_cell(j, d - 2 * area(j));
        } else {
            lemma_hilbert_index_of_cell(j, d - 3 * area(j));
        }
    }
}

/// The curve starts in the top-left corner and ends in the top-right one.
proof fn lemma_hilbert_ends(k: nat)
    ensures
        hilbert_cell(k, 0) == (0int, 0int),
        hilbert_cell(k, area(k) - 1) == (side(k) - 1, 0int),
    decreases k,
{
    if k > 0 {
        lemma_hilbert_ends((k - 1) as nat);
        lemma_side_area((k - 1) as nat);
    }
}

/// Two cells share an edge.
pub open spec fn edge_neighbours(a: (int, int), b: (int, int)) -> bool {
    ||| a.0 == b.0 && (a.1 - b.1 == 1 || b.1 - a.1 == 1)
    ||| a.1 == b.1 && (a.0 - b.0 == 1 || b.0 - a.0 == 1)
}

proof fn lemma_hilbert_steps(k: nat, d: int)
    requires
        0 <= d < area(k) - 1,
    ensures
        edge_neighbours(hilbert_cell(k, d), hilbert_cell(k, d + 1)),
    decreases k,
{
    if k > 0 {
        let j = (k - 1) as nat;
        let a = area(j);
        lemma_side_area(j);
        lemma_hilbert_ends(j);
        if d + 1 < a {
            lemma_hilbert_steps(j, d);
        } else if d + 1 == a {
        } else if d + 1 < 2 * a {
            lemma_hilbert_steps(j, d - a);
        } else if d + 1 == 2 * a {
        } else if d + 1 < 3 * a {
            lemma_hilbert_steps(j, d - 2 * a);
        } else if d + 1 == 3 * a {
        } else {
            lemma_hilbert_steps(j, d - 3 * a);
        }
    }
}

/// The identifiers of one zoom level fill the interval between the bases of
/// that level and of the next.
pub proof fn tile_ids_stay_in_their_zoom(z: nat, x: int, y: int)
    requires
        is_tile(z, x, y),
    ensures
        zoom_base(z) <= tile_id(z, x, y) < zoom_base(z + 1),
{
    lemma_hilbert_range(z, x, y);
    assert(x % side(z) == x && y % side(z) == y) by (nonlinear_arith)
        requires
            0 <= x < side(z),
            0 <= y < side(z),
    ;
}

/// Different tiles have different identifiers.
pub proof fn tile_ids_are_distinct(z1: nat, x1: int, y1: int, z2: nat, x2: int, y2: int)
    requires
        is_tile(z1, x1, y1),
        is_tile(z2, x2, y2),
        tile_id(z1, x1, y1) == tile_id(z2, x2, y2),
    ensures
        z1 == z2,
        x1 == x2,
        y1 == y2,
{
    tile_ids_stay_in_their_zoom(z1, x1, y1);
    tile_ids_stay_in_their_zoom(z2, x2, y2);
    if z1 < z2 {
        lemma_sizes_monotone(z1 + 1, z2);
    } else if z2 < z1 {
        lemma_sizes_monotone(z2 + 1, z1);
    }
    assert(x1 % side(z1) == x1 && y1 % side(z1) == y1) by (nonlinear_arith)
        requires
            0 <= x1 < side(z1),
            0 <= y1 < side(z1),
    ;
    assert(x2 % side(z2) == x2 && y2 % side(z2) == y2) by (nonlinear_arith)
        requires
            0 <= x2 < side(z2),
            0 <= y2 < side(z2),
    ;
    lemma_hilbert_cell_of_index(z1, x1, y1);
    lemma_hilbert_cell_of_index(z2, x2, y2);
}

/// Every identifier between two zoom bases belongs to a tile of that zoom.
pub proof fn tile_ids_leave_no_gap(z: nat, id: int) -> (cell: (int, int))
    requires
        zoom_base(z) <= id < zoom_base(z + 1),
    ensures
        is_tile(z, cell.0, cell.1),
        tile_id(z, cell.0, cell.1) == id,
{
    let d = id - zoom_base(z);
    let (x, y) = hilbert_cell(z, d);
    lemma_hilbert_index_of_cell(z, d);
    assert(x % side(z) == x && y % side(z) == y) by (nonlinear_arith)
        requires
            0 <= x < side(z),
            0 <= y < side(z),
    ;
    (x, y)
}

/// Two tiles of one zoom level with consecutive identifiers share an edge.
pub proof fn consecutive_tile_ids_are_neighbours(z: nat, x1: int, y1: int, x2: int, y2: int)
    requires
        is_tile(z, x1, y1),
        is_tile(z, x2, y2),
        tile_id(z, x2, y2) == tile_id(z, x1, y1) + 1,
    ensures
        edge_neighbours((x1, y1), (x2, y2)),
{
    assert(x1 % side(z) == x1 && y1 % side(z) == y1 && x2 % side(z) == x2 && y2 % side(z) == y2)
        by (nonlinear_arith)
        requires
            0 <= x1 < side(z),
            0 <= y1 < side(z),
            0 <= x2 < side(z),
            0 <= y2 < side(z),
    ;
    let d = hilbert(z, x1, y1);
    lemma_hilbert_range(z, x1, y1);
    lemma_hilbert_range(z, x2, y2);
    lemma_hilbert_cell_of_index(z, x1, y1);
    lemma_hilbert_cell_of_index(z, x2, y2);
    lemma_hilbert_steps(z, d);
}

/// Convert `(z, x, y)` to a tile identifier.
pub fn tile_to_id(z: u8, x: u32, y: u32) -> (id: u64)
    requires
        z <= 31,
    ensures
        id == tile_id(z as nat, x as int, y as int),
{
    let mut base: u64 = 0;
    let mut cells: u64 = 1;
    let mut n: u32 = 1;
    let mut i: u8 = 0;
    while i < z
        invariant
            i <= z <= 31,
            base == zoom_base(i as nat),
            cells == area(i as nat),
            n == side(i as nat),
        decreases z - i,
    {
        proof {
            lemma_zoom_limits((i + 1) as nat);
        }
        base = base + cells;
        cells = cells * 4;
        n = n * 2;
        i = i + 1;
    }
    proof {
        lemma_zoom_limits(z as nat);
        lemma_hilbert_range(z as nat, x as int % side(z as nat), y as int % side(z as nat));
    }
    base + xy_to_hilbert(z, n, x % n, y % n)
}

/// Position of `(x, y)` on the curve over an `n` by `n` grid, where `n` is the
/// side of the grid at zoom `z`.
fn xy_to_hilbert(z: u8, n: u32, x: u32, y: u32) -> (d: u64)
    requires
        z <= 31,
        n == side(z as nat),
        x < n,
        y < n,
    ensures
        d == hilbert(z as nat, x as int, y as int),
{
    let (mut cx, mut cy): (u32, u32) = (x, y);
    let mut d: u64 = 0;
    let mut s: u32 = n / 2;
    let ghost mut k: nat = z as nat;
    proof {
        lemma_zoom_limits(k);
        lemma_hilbert_range(k, x as int, y as int);
    }
    while s > 0
        invariant
            k <= 31,
            s == side(k) / 2,
            is_tile(k, cx as int, cy as int),
            d + hilbert(k, cx as int, cy as int) == hilbert(z as nat, x as int, y as int),
            0 <= hilbert(z as nat, x as int, y as int) < 0x4000_0000_0000_0000,
        decreases s,
    {
        proof {
            lemma_zoom_limits(k);
            if k > 0 {
                lemma_side_area((k - 1) as nat);
                lemma_hilbert_range(k, cx as int, cy as int);
            }
        }
        assert(k > 0);
        let ghost j = (k - 1) as nat;
        assert(s == side(j));
        assert(s as int * s as int == area(j));
        assert(area(j) <= 0x1000_0000_0000_0000) by {
            lemma_zoom_limits(k);
        }
        let quarter: u64 = s as u64 * s as u64;
        if cx < s && cy < s {
            proof {
                lemma_hilbert_range(j, cy as int, cx as int);
            }
            let t: u32 = cx;
            cx = cy;
            cy = t;
        } else if cx < s {
            proof {
                lemma_hilbert_range(j, cx as int, cy - s);
            }
            d = d + quarter;
            cy = cy - s;
        } else if cy >= s {
            proof {
                lemma_hilbert_range(j, cx - s, cy - s);
            }
            d = d + 2 * quarter;
            cx = cx - s;
            cy = cy - s;
        } else {
            proof {
                lemma_hilbert_range(j, s - 1 - cy, 2 * s - 1 - cx);
            }
            d = d + 3 * quarter;
            let t: u32 = s - 1 - (cx - s);
            cx = s - 1 - cy;
            cy = t;
        }
        s = s / 2;
        proof {
            k = j;
        }
    }
    assert(k == 0) by {
        if k > 0 {
            lemma_side_area((k - 1) as nat);
        }
    }
    d
}

proof fn lemma_hilbert_parent(k: nat, x: int, y: int)
    requires
        k > 0,
        is_tile(k, x, y),
    ensures
        hilbert(k, x, y) / 4 == hilbert((k - 1) as nat, x / 2, y / 2),
        is_tile((k - 1) as nat, x / 2, y / 2),
    decreases k,
{
    let j = (k - 1) as nat;
    let s = side(j);
    if k == 1 {
        reveal_with_fuel(hilbert, 2);
        assert(side(0) == 1 && area(0) == 1);
    } else {
        let i = (k - 2) as nat;
        assert(s == 2 * side(i));
        assert(area(j) == 4 * area(i));
        if x < s && y < s {
            lemma_hilbert_parent(j, y, x);
        } else if x < s {
            lemma_hilbert_parent(j, x, y - s);
        } else if y >= s {
            lemma_hilbert_parent(j, x - s, y - s);
        } else {
            lemma_hilbert_parent(j, s - 1 - y, 2 * s - 1 - x);
        }
    }
}

/// Zoom levels are numbered one behind the other, from the coarsest on: each has four
/// times the tiles of the one before, in twice the columns and rows.
pub proof fn zooms_are_numbered_in_turn(z: nat)
    ensures
        tile_id(0, 0, 0) == 0,
        side(0) == 1,
        side(z + 1) == 2 * side(z),
        area(z) == side(z) * side(z),
        zoom_base(z + 1) == zoom_base(z) + area(z),
        zoom_base(z + 1) == 4 * zoom_base(z) + 1,
    decreases z,
{
    assert(0int % 1 == 0);
    if z > 0 {
        zooms_are_numbered_in_turn((z - 1) as nat);
        let s = side((z - 1) as nat);
        assert((2 * s) * (2 * s) == 4 * (s * s)) by (nonlinear_arith);
    }
}

proof fn lemma_wrapped(z: nat, x: int, y: int)
    requires
        is_tile(z, x, y),
    ensures
        tile_id(z, x, y) == zoom_base(z) + hilbert(z, x, y),
{
    assert(x % side(z) == x && y % side(z) == y) by (nonlinear_arith)
        requires
            0 <= x < side(z),
            0 <= y < side(z),
    ;
}

/// The four tiles that a tile is split into are numbered in a row, in the place that the
/// tile has in its own zoom level.
pub proof fn tiles_are_numbered_as_their_parents(z: nat, x: int, y: int)
    requires
        z > 0,
        is_tile(z, x, y),
    ensures
        (tile_id(z, x, y) - zoom_base(z)) / 4 == tile_id((z - 1) as nat, x / 2, y / 2) - zoom_base(
            (z - 1) as nat,
        ),
{
    lemma_hilbert_parent(z, x, y);
    lemma_wrapped(z, x, y);
    lemma_wrapped((z - 1) as nat, x / 2, y / 2);
}

proof fn lemma_curve_ends(k: nat)
    ensures
        hilbert(k, 0, 0) == 0,
        hilbert(k, side(k) - 1, 0) == area(k) - 1,
        hilbert(k, 0, side(k) - 1) >= 0,
        side(k) >= 1,
    decreases k,
{
    if k > 0 {
        let j = (k - 1) as nat;
        lemma_curve_ends(j);
        lemma_hilbert_range(j, 0, side(j) - 1);
        lemma_hilbert_range(j, 0, 0);
        lemma_hilbert_range(k, 0, side(k) - 1);
    }
}

/// Every zoom level starts in its north-west corner and ends in its north-east one; the
/// first that is split goes down the western column and up the eastern one.
pub proof fn zooms_run_from_west_to_east(z: nat)
    ensures
        tile_id(z, 0, 0) == zoom_base(z),
        tile_id(z, side(z) - 1, 0) == zoom_base(z + 1) - 1,
        tile_id(1, 0, 0) == 1 && tile_id(1, 0, 1) == 2 && tile_id(1, 1, 1) == 3 && tile_id(1, 1, 0)
            == 4,
{
    lemma_curve_ends(z);
    lemma_wrapped(z, 0, 0);
    lemma_wrapped(z, side(z) - 1, 0);
    assert(side(1) == 2) by {
        reveal_with_fuel(side, 2);
    }
    lemma_wrapped(1, 0, 0);
    lemma_wrapped(1, 0, 1);
    lemma_wrapped(1, 1, 1);
    lemma_wrapped(1, 1, 0);
    reveal_with_fuel(hilbert, 2);
    reveal_with_fuel(area, 2);
    reveal_with_fuel(zoom_base, 2);
    reveal_with_fuel(side, 2);
}

} // verus!

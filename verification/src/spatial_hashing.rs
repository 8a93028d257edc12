use vstd::prelude::*;
use crate::constants::{PARTICLE_COUNT, X_HASH_MULTIPLIER, Y_HASH_MULTIPLIER};

verus! {

/// A cell coordinate brought into `u32`: negative values become 0 and values
/// above `u32::MAX` become `u32::MAX`.
pub open spec fn saturate_coord(c: int) -> u32 {
    if c <= 0 {
        0
    } else if c >= u32::MAX {
        u32::MAX
    } else {
        c as u32
    }
}

/// The sum that the hash of a cell reduces modulo the bucket count.
pub open spec fn hash_sum(x: u32, y: u32) -> int {
    x * X_HASH_MULTIPLIER + y * Y_HASH_MULTIPLIER
}

/// The hash sum of the cell at column `x` and row `y` fits in a `u32`.
pub open spec fn coords_hashable(x: int, y: int) -> bool {
    hash_sum(saturate_coord(x), saturate_coord(y)) <= u32::MAX
}

/// The bucket key of the cell at column `x` and row `y`.
pub open spec fn coords_key(x: int, y: int) -> int {
    hash_sum(saturate_coord(x), saturate_coord(y)) % (PARTICLE_COUNT as int)
}

/// The cell's hash sum fits in a `u32`, so computing its key does not overflow.
pub open spec fn cell_hashable(cell: (i64, i64)) -> bool {
    coords_hashable(cell.0 as int, cell.1 as int)
}

/// The bucket key of a cell.
pub open spec fn cell_key(cell: (i64, i64)) -> int {
    coords_key(cell.0 as int, cell.1 as int)
}

/// Every cell within one step of `cell`, diagonals included, is hashable.
/// Since the hash grows with both coordinates, the cell one step up and to the
/// right decides it.
pub open spec fn neighbourhood_hashable(cell: (i64, i64)) -> bool {
    coords_hashable(cell.0 + 1, cell.1 + 1)
}

/// Cells further up or to the right hash to larger sums.
pub proof fn lemma_hash_sum_monotone(x1: int, y1: int, x2: int, y2: int)
    requires
        x1 <= x2,
        y1 <= y2,
    ensures
        hash_sum(saturate_coord(x1), saturate_coord(y1)) <= hash_sum(saturate_coord(x2), saturate_coord(y2)),
{
}

/// The hash of a cell, written out: with each coordinate clamped into
/// `0 ..= u32::MAX`, the key is `(1259 * x + 3109 * y) mod 5000`, and the cell is
/// hashable exactly when `1259 * x + 3109 * y` fits in a `u32`.
pub proof fn lemma_cell_key_formula(cell: (i64, i64))
    ensures
        ({
            let x: int = if cell.0 <= 0 {
                0
            } else if cell.0 >= 4294967295 {
                4294967295
            } else {
                cell.0 as int
            };
            let y: int = if cell.1 <= 0 {
                0
            } else if cell.1 >= 4294967295 {
                4294967295
            } else {
                cell.1 as int
            };
            &&& cell_key(cell) == (1259 * x + 3109 * y) % 5000
            &&& 0 <= cell_key(cell) < 5000
            &&& (cell_hashable(cell) <==> 1259 * x + 3109 * y <= 4294967295)
        }),
{
}

/// The hash of the cell at any column `x` and row `y`, written out as for
/// `lemma_cell_key_formula`.
pub proof fn lemma_coords_key_formula(x: int, y: int)
    ensures
        ({
            let cx: int = if x <= 0 {
                0
            } else if x >= 4294967295 {
                4294967295
            } else {
                x
            };
            let cy: int = if y <= 0 {
                0
            } else if y >= 4294967295 {
                4294967295
            } else {
                y
            };
            &&& coords_key(x, y) == (1259 * cx + 3109 * cy) % 5000
            &&& 0 <= coords_key(x, y) < 5000
            &&& (coords_hashable(x, y) <==> 1259 * cx + 3109 * cy <= 4294967295)
        }),
{
}

/// A neighbourhood is hashable exactly when each of its nine cells is.
pub proof fn lemma_neighbourhood_hashable(cell: (i64, i64))
    ensures
        neighbourhood_hashable(cell) <==> forall|dx: int, dy: int|
            -1 <= dx <= 1 && -1 <= dy <= 1 ==> #[trigger] coords_hashable(cell.0 + dx, cell.1 + dy),
{
    if neighbourhood_hashable(cell) {
        assert forall|dx: int, dy: int| -1 <= dx <= 1 && -1 <= dy <= 1 implies #[trigger] coords_hashable(
            cell.0 + dx,
            cell.1 + dy,
        ) by {
            lemma_hash_sum_monotone(cell.0 + dx, cell.1 + dy, cell.0 + 1, cell.1 + 1);
        }
    }
    if forall|dx: int, dy: int|
        -1 <= dx <= 1 && -1 <= dy <= 1 ==> #[trigger] coords_hashable(cell.0 + dx, cell.1 + dy) {
        assert(coords_hashable(cell.0 + 1, cell.1 + 1));
    }
}

/// Clamping leaves a coordinate in `0 ..= u32::MAX` as it is, sends negative
/// ones to 0 and larger ones to `u32::MAX`.
pub proof fn lemma_saturate_clamps(c: int)
    ensures
        0 <= c <= 4294967295 ==> saturate_coord(c) == c,
        c < 0 ==> saturate_coord(c) == 0,
        c > 4294967295 ==> saturate_coord(c) == 4294967295,
{
}

/// One step right adds 1259 to the key, and one step up adds 3109, modulo 5000.
pub proof fn lemma_cell_key_steps(x: i64, y: i64)
    requires
        0 <= x < 4294967295,
        0 <= y < 4294967295,
    ensures
        cell_key(((x + 1) as i64, y)) == (cell_key((x, y)) + 1259) % 5000,
        cell_key((x, (y + 1) as i64)) == (cell_key((x, y)) + 3109) % 5000,
{
    let s = 1259 * x + 3109 * y;
    assert(cell_key((x, y)) == s % 5000);
    assert(cell_key(((x + 1) as i64, y)) == (s + 1259) % 5000);
    assert(cell_key((x, (y + 1) as i64)) == (s + 3109) % 5000);
    vstd::arithmetic::div_mod::lemma_add_mod_noop(s, 1259, 5000);
    vstd::arithmetic::div_mod::lemma_add_mod_noop(s, 3109, 5000);
    assert(1259int % 5000 == 1259);
    assert(3109int % 5000 == 3109);
    vstd::arithmetic::div_mod::lemma_mod_twice(s, 5000);
}

/// Brings a cell coordinate into `u32`, saturating at both ends.
pub fn saturating_coord(c: i64) -> (r: u32)
    ensures
        r == saturate_coord(c as int),
{
    if c <= 0 {
        0
    } else if c >= 0xffff_ffffi64 {
        u32::MAX
    } else {
        c as u32
    }
}

/// The bucket key of the cell at `cell_pos`.
pub fn get_cell_key(cell_pos: (i64, i64)) -> (key: usize)
    requires
        cell_hashable(cell_pos),
    ensures
        key == cell_key(cell_pos),
        key < PARTICLE_COUNT,
        key == (1259 * saturate_coord(cell_pos.0 as int) + 3109 * saturate_coord(cell_pos.1 as int))
            % 5000,
{
    let x = saturating_coord(cell_pos.0);
    let y = saturating_coord(cell_pos.1);
    ((x * X_HASH_MULTIPLIER + y * Y_HASH_MULTIPLIER) % PARTICLE_COUNT) as usize
}

/// Moves a cell coordinate by one step at most, keeping the saturated value
/// that the exact sum would have.
pub fn offset_coord(c: i64, d: i64) -> (r: i64)
    requires
        -1 <= d <= 1,
    ensures
        r == (if i64::MIN <= c + d <= i64::MAX { c + d } else { c as int }),
        saturate_coord(r as int) == saturate_coord(c + d),
{
    if d < 0 && c == i64::MIN {
        c
    } else if d > 0 && c == i64::MAX {
        c
    } else {
        c + d
    }
}

/// Whether the key of the cell at `cell_pos` can be computed without overflow.
pub fn is_cell_hashable(cell_pos: (i64, i64)) -> (b: bool)
    ensures
        b == cell_hashable(cell_pos),
{
    let x = saturating_coord(cell_pos.0) as u64;
    let y = saturating_coord(cell_pos.1) as u64;
    let xm = X_HASH_MULTIPLIER as u64;
    let ym = Y_HASH_MULTIPLIER as u64;
    assert(x * xm + y * ym < 0x1_0000_0000_0000u64) by (nonlinear_arith)
        requires
            x <= 0xffff_ffff,
            y <= 0xffff_ffff,
            xm == 1259,
            ym == 3109,
    ;
    x * xm + y * ym <= 0xffff_ffffu64
}

/// Whether every cell within one step of `cell_pos` can be hashed without overflow.
pub fn is_neighbourhood_hashable(cell_pos: (i64, i64)) -> (b: bool)
    ensures
        b == neighbourhood_hashable(cell_pos),
{
    let x = offset_coord(cell_pos.0, 1);
    let y = offset_coord(cell_pos.1, 1);
    is_cell_hashable((x, y))
}

} // verus!

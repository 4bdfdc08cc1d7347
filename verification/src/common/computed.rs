//! Precomputed tables that describe every piece in every orientation.
//!
//! Piece types are numbered 0 to 6 (O, I, T, L, J, S, Z).  A shape is a
//! 4 by 4 box of cells indexed `[x][y]`, `x` growing to the right and `y`
//! growing upwards.
use vstd::prelude::*;
use crate::bits::{has_bit, lemma_bit_or_single, lemma_zero_has_no_bit};

verus! {

/// Side of the box inside which a piece type rotates.
pub open spec fn spec_piece_size(t: int) -> int {
    if t == 0 {
        2
    } else if t == 1 {
        4
    } else {
        3
    }
}

/// The cells of each piece type in its spawn orientation.
pub open spec fn base_cell(t: int, x: int, y: int) -> bool {
    if t == 0 {
        (x == 1 || x == 2) && (y == 1 || y == 2)
    } else if t == 1 {
        0 <= x < 4 && y == 2
    } else if t == 2 {
        (y == 1 && 0 <= x < 3) || (x == 1 && y == 2)
    } else if t == 3 {
        (y == 1 && 0 <= x < 3) || (x == 2 && y == 2)
    } else if t == 4 {
        (y == 1 && 0 <= x < 3) || (x == 0 && y == 2)
    } else if t == 5 {
        (x == 0 && y == 1) || (x == 1 && (y == 1 || y == 2)) || (x == 2 && y == 2)
    } else if t == 6 {
        (x == 0 && y == 2) || (x == 1 && (y == 1 || y == 2)) || (x == 2 && y == 1)
    } else {
        false
    }
}

/// The cells of piece type `t` after `r` clockwise quarter turns inside its
/// box.  The O piece does not rotate.
pub open spec fn shape_cell(t: int, r: nat, x: int, y: int) -> bool
    decreases r,
{
    if r == 0 || t == 0 {
        base_cell(t, x, y)
    } else {
        let s = spec_piece_size(t);
        if 0 <= x < s && 0 <= y < s {
            shape_cell(t, (r - 1) as nat, s - 1 - y, x)
        } else {
            false
        }
    }
}

/// `shape` holds exactly the cells of type `t` in orientation `r`.
pub open spec fn shape_matches(shape: [[bool; 4]; 4], t: int, r: nat) -> bool {
    forall|x: int, y: int| 0 <= x < 4 && 0 <= y < 4 ==> shape[x][y] == shape_cell(t, r, x, y)
}

/// The board row bits that cells `0..n` of row `j` of a shape occupy when the
/// box's left edge stands at column `x`; cells outside the ten columns are cut.
pub open spec fn bit_row_upto(t: int, r: nat, x: int, j: int, n: nat) -> u16
    decreases n,
{
    if n == 0 {
        0
    } else {
        let i = n - 1;
        let prev = bit_row_upto(t, r, x, j, (n - 1) as nat);
        if shape_cell(t, r, i, j) && 0 <= x + i < 10 {
            prev | (1u16 << ((x + i) as u16))
        } else {
            prev
        }
    }
}

/// The board row bits of row `j` of a shape whose box's left edge stands at
/// column `x`.
pub open spec fn bit_row(t: int, r: nat, x: int, j: int) -> u16 {
    bit_row_upto(t, r, x, j, 4)
}

/// `bits` holds the four board rows of type `t`, orientation `r`, at column `x`.
pub open spec fn bit_shape_matches(bits: [u16; 4], t: int, r: nat, x: int) -> bool {
    forall|j: int| 0 <= j < 4 ==> bits[j] == bit_row(t, r, x, j)
}

/// Lowest filled row among rows `0..n` of column `i`, or -1.
pub open spec fn first_below(t: int, r: nat, i: int, n: nat) -> int
    decreases n,
{
    if n == 0 {
        -1
    } else {
        let f = first_below(t, r, i, (n - 1) as nat);
        if f != -1 {
            f
        } else if shape_cell(t, r, i, n - 1) {
            n - 1
        } else {
            -1
        }
    }
}

/// Number of filled cells among rows `0..n` of column `i`.
pub open spec fn count_below(t: int, r: nat, i: int, n: nat) -> int
    decreases n,
{
    if n == 0 {
        0
    } else {
        count_below(t, r, i, (n - 1) as nat) + if shape_cell(t, r, i, n - 1) {
            1int
        } else {
            0int
        }
    }
}

/// Column `i` of the shape: its lowest filled row and its number of filled
/// cells, or `(-1, -1)` for an empty column.
pub open spec fn height_entry(t: int, r: nat, i: int) -> (int, int) {
    if first_below(t, r, i, 4) == -1 {
        (-1, -1)
    } else {
        (first_below(t, r, i, 4), count_below(t, r, i, 4))
    }
}

/// `hm` is the height map of type `t` in orientation `r`.
pub open spec fn height_map_matches(hm: [(i8, i8); 4], t: int, r: nat) -> bool {
    forall|i: int|
        0 <= i < 4 ==> hm[i].0 == height_entry(t, r, i).0 && hm[i].1 == height_entry(t, r, i).1
}

/// Column `i` of the shape holds no cell.
pub open spec fn col_empty(t: int, r: nat, i: int) -> bool {
    first_below(t, r, i, 4) == -1
}

/// Number of empty columns at the left edge of the box, looking at the
/// first `n` columns only.
pub open spec fn lead_empty_cols(t: int, r: nat, n: nat) -> int
    decreases n,
{
    if n == 0 {
        0
    } else {
        let p = lead_empty_cols(t, r, (n - 1) as nat);
        if p == n - 1 && col_empty(t, r, n - 1) {
            n as int
        } else {
            p
        }
    }
}

/// Number of empty columns at the right edge of the box, looking at the
/// last `n` columns only.
pub open spec fn trail_empty_cols(t: int, r: nat, n: nat) -> int
    decreases n,
{
    if n == 0 {
        0
    } else {
        let p = trail_empty_cols(t, r, (n - 1) as nat);
        if p == n - 1 && col_empty(t, r, 4 - n) {
            n as int
        } else {
            p
        }
    }
}

/// Row `j` of the shape holds no cell (seen at the spawn column).
pub open spec fn row_empty(t: int, r: nat, j: int) -> bool {
    bit_row(t, r, 3, j) == 0
}

/// Number of empty rows at the bottom of the box, among the first `n` rows.
pub open spec fn lead_empty_rows(t: int, r: nat, n: nat) -> int
    decreases n,
{
    if n == 0 {
        0
    } else {
        let p = lead_empty_rows(t, r, (n - 1) as nat);
        if p == n - 1 && row_empty(t, r, n - 1) {
            n as int
        } else {
            p
        }
    }
}

/// Number of empty rows at the top of the box, among the last `n` rows.
pub open spec fn trail_empty_rows(t: int, r: nat, n: nat) -> int
    decreases n,
{
    if n == 0 {
        0
    } else {
        let p = trail_empty_rows(t, r, (n - 1) as nat);
        if p == n - 1 && row_empty(t, r, 4 - n) {
            n as int
        } else {
            p
        }
    }
}

/// Smallest and largest x and y of a piece's box so that every cell of the
/// piece lies on the board: `(min x, max x, min y, max y)`.
pub open spec fn location_bounds(t: int, r: nat) -> (int, int, int, int) {
    (
        -lead_empty_cols(t, r, 4),
        6 + trail_empty_cols(t, r, 4),
        -lead_empty_rows(t, r, 4),
        20 + trail_empty_rows(t, r, 4),
    )
}

/// How far a piece may move left and right from the spawn column.
pub open spec fn shift_bounds(t: int, r: nat) -> (int, int) {
    (3 - location_bounds(t, r).0, location_bounds(t, r).1 - 3)
}

/// Spawn location of the box of each piece type.
pub open spec fn spawn_location(t: int) -> (int, int) {
    if t == 1 {
        (3, 18)
    } else {
        (3, 19)
    }
}

/// The base shape of piece type `t`.
fn base_shape(t: usize) -> (shape: [[bool; 4]; 4])
    requires
        t < 7,
    ensures
        shape_matches(shape, t as int, 0),
{
    let f = false;
    let o = true;
    if t == 0 {
        [[f, f, f, f], [f, o, o, f], [f, o, o, f], [f, f, f, f]]
    } else if t == 1 {
        [[f, f, o, f], [f, f, o, f], [f, f, o, f], [f, f, o, f]]
    } else if t == 2 {
        [[f, o, f, f], [f, o, o, f], [f, o, f, f], [f, f, f, f]]
    } else if t == 3 {
        [[f, o, f, f], [f, o, f, f], [f, o, o, f], [f, f, f, f]]
    } else if t == 4 {
        [[f, o, o, f], [f, o, f, f], [f, o, f, f], [f, f, f, f]]
    } else if t == 5 {
        [[f, o, f, f], [f, o, o, f], [f, f, o, f], [f, f, f, f]]
    } else {
        [[f, f, o, f], [f, o, o, f], [f, o, f, f], [f, f, f, f]]
    }
}

/// Turns the `size` by `size` corner of a box a quarter turn clockwise.
fn rotate_shape(arr: [[bool; 4]; 4], size: usize) -> (new_arr: [[bool; 4]; 4])
    requires
        size <= 4,
    ensures
        forall|a: int, b: int|
            0 <= a < 4 && 0 <= b < 4 ==> new_arr[a][b] == if a < size && b < size {
                arr[size - 1 - b][a]
            } else {
                false
            },
{
    let mut new_arr = [[false; 4]; 4];
    let mut i: usize = 0;
    while i < size
        invariant
            size <= 4,
            i <= size,
            forall|a: int, b: int|
                0 <= a < 4 && 0 <= b < 4 ==> new_arr[a][b] == if a < size && b < size && size
                    - 1 - b < i {
                    arr[size - 1 - b][a]
                } else {
                    false
                },
        decreases size - i,
    {
        let mut j: usize = 0;
        while j < size
            invariant
                size <= 4,
                i < size,
                j <= size,
                forall|a: int, b: int|
                    0 <= a < 4 && 0 <= b < 4 ==> new_arr[a][b] == if a < size && b < size && (
                    size - 1 - b < i || (size - 1 - b == i && a < j)) {
                        arr[size - 1 - b][a]
                    } else {
                        false
                    },
            decreases size - j,
        {
            new_arr[j][size - 1 - i] = arr[i][j];
            j += 1;
        }
        i += 1;
    }
    new_arr
}

/// The shape of piece type `t` in orientation `r`.
pub fn shape_of(t: usize, r: usize) -> (shape: [[bool; 4]; 4])
    requires
        t < 7,
        r < 4,
    ensures
        shape_matches(shape, t as int, r as nat),
{
    let size: usize = if t == 0 {
        2
    } else if t == 1 {
        4
    } else {
        3
    };
    let mut shape = base_shape(t);
    let mut k: usize = 0;
    while k < r
        invariant
            t < 7,
            k <= r < 4,
            size == spec_piece_size(t as int),
            shape_matches(shape, t as int, k as nat),
        decreases r - k,
    {
        let ghost prev = shape;
        if t != 0 {
            shape = rotate_shape(shape, size);
        }
        assert forall|x: int, y: int| 0 <= x < 4 && 0 <= y < 4 implies shape[x][y] == shape_cell(
            t as int,
            (k + 1) as nat,
            x,
            y,
        ) by {
            if t != 0 {
                if x < size && y < size {
                    assert(prev[size - 1 - y][x] == shape_cell(
                        t as int,
                        k as nat,
                        size - 1 - y,
                        x,
                    ));
                } else {
                    assert(!shape_cell(t as int, (k + 1) as nat, x, y));
                }
            } else {
                assert(prev[x][y] == shape_cell(t as int, k as nat, x, y));
                assert(shape_cell(t as int, k as nat, x, y) == base_cell(t as int, x, y));
            }
        }
        k += 1;
    }
    shape
}

/// The board rows that a shape occupies when its box's left edge stands at
/// column `x`.
pub fn bit_shape_of(t: usize, r: usize, shape: [[bool; 4]; 4], x: i8) -> (bits: [u16; 4])
    requires
        t < 7,
        r < 4,
        shape_matches(shape, t as int, r as nat),
    ensures
        bit_shape_matches(bits, t as int, r as nat, x as int),
{
    let mut bits = [0u16; 4];
    let mut i: i8 = 0;
    while i < 4
        invariant
            0 <= i <= 4,
            shape_matches(shape, t as int, r as nat),
            forall|j: int| 0 <= j < 4 ==> bits[j] == bit_row_upto(t as int, r as nat, x as int, j, i as nat),
        decreases 4 - i,
    {
        let mut j: i8 = 0;
        while j < 4
            invariant
                0 <= i < 4,
                0 <= j <= 4,
                shape_matches(shape, t as int, r as nat),
                forall|jj: int|
                    0 <= jj < j ==> bits[jj] == bit_row_upto(t as int, r as nat, x as int, jj, (i + 1) as nat),
                forall|jj: int|
                    j <= jj < 4 ==> bits[jj] == bit_row_upto(t as int, r as nat, x as int, jj, i as nat),
            decreases 4 - j,
        {
            let col: i16 = x as i16 + i as i16;
            if shape[i as usize][j as usize] && 0 <= col && col < 10 {
                bits[j as usize] = bits[j as usize] | (1u16 << (col as u16));
            }
            j += 1;
        }
        i += 1;
    }
    bits
}

/// The height map of a shape: for every column its lowest filled row and
/// its number of filled cells, or `(-1, -1)` when the column is empty.
pub fn height_map_of(t: usize, r: usize, shape: [[bool; 4]; 4]) -> (hm: [(i8, i8); 4])
    requires
        t < 7,
        r < 4,
        shape_matches(shape, t as int, r as nat),
    ensures
        height_map_matches(hm, t as int, r as nat),
{
    let mut hm = [(-1i8, -1i8); 4];
    let mut i: usize = 0;
    while i < 4
        invariant
            i <= 4,
            shape_matches(shape, t as int, r as nat),
            forall|ii: int|
                0 <= ii < i ==> hm[ii].0 == height_entry(t as int, r as nat, ii).0 && hm[ii].1
                    == height_entry(t as int, r as nat, ii).1,
            forall|ii: int| i <= ii < 4 ==> hm[ii] == (-1i8, -1i8),
        decreases 4 - i,
    {
        let mut j: usize = 0;
        while j < 4
            invariant
                i < 4,
                j <= 4,
                shape_matches(shape, t as int, r as nat),
                forall|ii: int|
                    0 <= ii < i ==> hm[ii].0 == height_entry(t as int, r as nat, ii).0 && hm[ii].1
                        == height_entry(t as int, r as nat, ii).1,
                forall|ii: int| i < ii < 4 ==> hm[ii] == (-1i8, -1i8),
                first_below(t as int, r as nat, i as int, j as nat) == -1 ==> hm[i as int] == (
                -1i8,
                -1i8,
                ),
                first_below(t as int, r as nat, i as int, j as nat) != -1 ==> hm[i as int].0
                    == first_below(t as int, r as nat, i as int, j as nat) && hm[i as int].1
                    == count_below(t as int, r as nat, i as int, j as nat),
                first_below(t as int, r as nat, i as int, j as nat) == -1 ==> count_below(
                    t as int,
                    r as nat,
                    i as int,
                    j as nat,
                ) == 0,
                0 <= count_below(t as int, r as nat, i as int, j as nat) <= j,
            decreases 4 - j,
        {
            if shape[i][j] {
                if hm[i].0 == -1 {
                    hm[i] = (j as i8, 1);
                } else {
                    hm[i].1 = hm[i].1 + 1;
                }
            }
            j += 1;
        }
        i += 1;
    }
    hm
}

/// Once a filled column is met, counting further columns adds no empty
/// leading one.
pub proof fn lemma_lead_cols_stable(t: int, r: nat, k: nat, n: nat)
    requires
        k <= n,
        lead_empty_cols(t, r, k) < k,
    ensures
        lead_empty_cols(t, r, n) == lead_empty_cols(t, r, k),
    decreases n - k,
{
    if n > k {
        lemma_lead_cols_stable(t, r, k, (n - 1) as nat);
    }
}

/// Once a filled column is met, counting further columns adds no empty
/// trailing one.
pub proof fn lemma_trail_cols_stable(t: int, r: nat, k: nat, n: nat)
    requires
        k <= n,
        trail_empty_cols(t, r, k) < k,
    ensures
        trail_empty_cols(t, r, n) == trail_empty_cols(t, r, k),
    decreases n - k,
{
    if n > k {
        lemma_trail_cols_stable(t, r, k, (n - 1) as nat);
    }
}

proof fn lemma_lead_rows_stable(t: int, r: nat, k: nat, n: nat)
    requires
        k <= n,
        lead_empty_rows(t, r, k) < k,
    ensures
        lead_empty_rows(t, r, n) == lead_empty_rows(t, r, k),
    decreases n - k,
{
    if n > k {
        lemma_lead_rows_stable(t, r, k, (n - 1) as nat);
    }
}

proof fn lemma_trail_rows_stable(t: int, r: nat, k: nat, n: nat)
    requires
        k <= n,
        trail_empty_rows(t, r, k) < k,
    ensures
        trail_empty_rows(t, r, n) == trail_empty_rows(t, r, k),
    decreases n - k,
{
    if n > k {
        lemma_trail_rows_stable(t, r, k, (n - 1) as nat);
    }
}

/// The location bounds of a shape, from its height map and its board rows
/// at the spawn column.
pub fn location_bounds_of(t: usize, r: usize, hm: [(i8, i8); 4], center: [u16; 4]) -> (bounds: (
    i8,
    i8,
    i8,
    i8,
))
    requires
        t < 7,
        r < 4,
        height_map_matches(hm, t as int, r as nat),
        bit_shape_matches(center, t as int, r as nat, 3),
    ensures
        bounds.0 == location_bounds(t as int, r as nat).0,
        bounds.1 == location_bounds(t as int, r as nat).1,
        bounds.2 == location_bounds(t as int, r as nat).2,
        bounds.3 == location_bounds(t as int, r as nat).3,
{
    let ghost tt = t as int;
    let ghost rr = r as nat;
    let mut left: i8 = 0;
    let mut i: usize = 0;
    while i < 4 && hm[i].0 == -1
        invariant
            i <= 4,
            height_map_matches(hm, tt, rr),
            lead_empty_cols(tt, rr, i as nat) == i,
            left == -(i as int),
        decreases 4 - i,
    {
        left -= 1;
        i += 1;
    }
    if i < 4 {
        assert(lead_empty_cols(tt, rr, (i + 1) as nat) == i);
        proof {
            lemma_lead_cols_stable(tt, rr, (i + 1) as nat, 4);
        }
    }
    let mut right: i8 = 6;
    let mut k: usize = 0;
    while k < 4 && hm[3 - k].0 == -1
        invariant
            k <= 4,
            height_map_matches(hm, tt, rr),
            trail_empty_cols(tt, rr, k as nat) == k,
            right == 6 + k,
        decreases 4 - k,
    {
        right += 1;
        k += 1;
    }
    if k < 4 {
        assert(trail_empty_cols(tt, rr, (k + 1) as nat) == k);
        proof {
            lemma_trail_cols_stable(tt, rr, (k + 1) as nat, 4);
        }
    }
    let mut bottom: i8 = 0;
    let mut j: usize = 0;
    while j < 4 && center[j] == 0
        invariant
            j <= 4,
            bit_shape_matches(center, tt, rr, 3),
            lead_empty_rows(tt, rr, j as nat) == j,
            bottom == -(j as int),
        decreases 4 - j,
    {
        bottom -= 1;
        j += 1;
    }
    if j < 4 {
        assert(lead_empty_rows(tt, rr, (j + 1) as nat) == j);
        proof {
            lemma_lead_rows_stable(tt, rr, (j + 1) as nat, 4);
        }
    }
    let mut top: i8 = 20;
    let mut m: usize = 0;
    while m < 4 && center[3 - m] == 0
        invariant
            m <= 4,
            bit_shape_matches(center, tt, rr, 3),
            trail_empty_rows(tt, rr, m as nat) == m,
            top == 20 + m,
        decreases 4 - m,
    {
        top += 1;
        m += 1;
    }
    if m < 4 {
        assert(trail_empty_rows(tt, rr, (m + 1) as nat) == m);
        proof {
            lemma_trail_rows_stable(tt, rr, (m + 1) as nat, 4);
        }
    }
    (left, right, bottom, top)
}

/// Wall kicks of the I piece from orientation `from` to orientation `to`.
pub open spec fn i_kicks(from: int, to: int) -> Seq<(int, int)> {
    if (from == 0 && to == 1) || (from == 3 && to == 2) {
        seq![(0, 0), (-2, 0), (1, 0), (-2, -1), (1, 2)]
    } else if (from == 0 && to == 3) || (from == 1 && to == 2) {
        seq![(0, 0), (-1, 0), (2, 0), (-1, 2), (2, -1)]
    } else if (from == 1 && to == 0) || (from == 2 && to == 3) {
        seq![(0, 0), (2, 0), (-1, 0), (2, 1), (-1, -2)]
    } else if (from == 2 && to == 1) || (from == 3 && to == 0) {
        seq![(0, 0), (1, 0), (-2, 0), (1, -2), (-2, 1)]
    } else {
        seq![(0, 0)]
    }
}

/// Wall kicks of the T, L, J, S and Z pieces from orientation `from` to
/// orientation `to`.
pub open spec fn tljsz_kicks(from: int, to: int) -> Seq<(int, int)> {
    if (from == 0 && to == 1) || (from == 2 && to == 1) {
        seq![(0, 0), (-1, 0), (-1, 1), (0, -2), (-1, -2)]
    } else if (from == 0 && to == 3) || (from == 2 && to == 3) {
        seq![(0, 0), (1, 0), (1, 1), (0, -2), (1, -2)]
    } else if (from == 1 && to == 0) || (from == 1 && to == 2) {
        seq![(0, 0), (1, 0), (1, -1), (0, 2), (1, 2)]
    } else if (from == 3 && to == 0) || (from == 3 && to == 2) {
        seq![(0, 0), (-1, 0), (-1, -1), (0, 2), (-1, 2)]
    } else {
        seq![(0, 0)]
    }
}

/// The offsets tried, in order, when piece type `t` turns from orientation
/// `from` to orientation `to`.
pub open spec fn kick_table(t: int, from: int, to: int) -> Seq<(int, int)> {
    if from == to {
        seq![]
    } else if t == 0 {
        seq![(0, 0)]
    } else if t == 1 {
        i_kicks(from, to)
    } else {
        tljsz_kicks(from, to)
    }
}

/// `v` holds the offsets of `kicks`.
pub open spec fn kicks_match(v: Seq<(i8, i8)>, kicks: Seq<(int, int)>) -> bool {
    &&& v.len() == kicks.len()
    &&& forall|k: int| 0 <= k < v.len() ==> v[k].0 == kicks[k].0 && v[k].1 == kicks[k].1
}

fn five_kicks(a: [(i8, i8); 5]) -> (v: Vec<(i8, i8)>)
    ensures
        v@ == a@,
{
    let mut v = Vec::new();
    let mut k: usize = 0;
    while k < 5
        invariant
            k <= 5,
            v@ == a@.subrange(0, k as int),
        decreases 5 - k,
    {
        v.push(a[k]);
        assert(a@.subrange(0, k + 1) == a@.subrange(0, k as int).push(a@[k as int]));
        k += 1;
    }
    assert(a@.subrange(0, 5) == a@);
    v
}

/// The wall kicks of piece type `t` from orientation `from` to `to`.
pub fn kick_table_of(t: usize, from: usize, to: usize) -> (v: Vec<(i8, i8)>)
    requires
        t < 7,
        from < 4,
        to < 4,
    ensures
        kicks_match(v@, kick_table(t as int, from as int, to as int)),
{
    if from == to {
        Vec::new()
    } else if t == 0 || from + 2 == to || to + 2 == from {
        let mut v = Vec::new();
        v.push((0i8, 0i8));
        v
    } else if t == 1 {
        if (from == 0 && to == 1) || (from == 3 && to == 2) {
            let v = five_kicks([(0, 0), (-2, 0), (1, 0), (-2, -1), (1, 2)]);
            v
        } else if (from == 0 && to == 3) || (from == 1 && to == 2) {
            let v = five_kicks([(0, 0), (-1, 0), (2, 0), (-1, 2), (2, -1)]);
            v
        } else if (from == 1 && to == 0) || (from == 2 && to == 3) {
            let v = five_kicks([(0, 0), (2, 0), (-1, 0), (2, 1), (-1, -2)]);
            v
        } else {
            let v = five_kicks([(0, 0), (1, 0), (-2, 0), (1, -2), (-2, 1)]);
            v
        }
    } else {
        if (from == 0 && to == 1) || (from == 2 && to == 1) {
            let v = five_kicks([(0, 0), (-1, 0), (-1, 1), (0, -2), (-1, -2)]);
            v
        } else if (from == 0 && to == 3) || (from == 2 && to == 3) {
            let v = five_kicks([(0, 0), (1, 0), (1, 1), (0, -2), (1, -2)]);
            v
        } else if (from == 1 && to == 0) || (from == 1 && to == 2) {
            let v = five_kicks([(0, 0), (1, 0), (1, -1), (0, 2), (1, 2)]);
            v
        } else {
            let v = five_kicks([(0, 0), (-1, 0), (-1, -1), (0, 2), (-1, 2)]);
            v
        }
    }
}

/// Precomputed constants for every piece type and orientation.
pub struct PieceInfo {
    /// The spawn location of each piece.
    pub spawn_locations: [(i8, i8); 7],
    /// The shape of each piece, as a 2d array of bools.
    pub shapes: [[[[bool; 4]; 4]; 4]; 7],
    /// The board rows of each shape for every column of its box, from
    /// `PIECE_SPAWN_COLUMN - PIECE_MAX_X_SHIFT` on; cells that leave the
    /// board are cut off.
    pub bit_shapes: [[[[u16; 4]; 11]; 4]; 7],
    /// Lowest filled row and number of filled cells of every column, both
    /// -1 for an empty column.
    pub height_maps: [[[(i8, i8); 4]; 4]; 7],
    /// Min/Max x/y positions of a piece (min x, max x, min y, max y).
    pub location_bounds: [[(i8, i8, i8, i8); 4]; 7],
    /// How much a piece can shift from its spawn position.
    pub shift_bounds: [[(i8, i8); 4]; 7],
    /// Wall kicks, indexed by piece type, start and end orientation.
    pub kick_table: Vec<Vec<Vec<Vec<(i8, i8)>>>>,
}

impl PieceInfo {
    /// Every table holds what the spec functions of this module describe.
    pub open spec fn wf(&self) -> bool {
        &&& forall|p: int|
            0 <= p < 7 ==> self.spawn_locations[p].0 == spawn_location(p).0
                && self.spawn_locations[p].1 == spawn_location(p).1
        &&& forall|p: int, r: int|
            0 <= p < 7 && 0 <= r < 4 ==> shape_matches(#[trigger] self.shapes[p][r], p, r as nat)
        &&& forall|p: int, r: int, s: int|
            0 <= p < 7 && 0 <= r < 4 && 0 <= s < 11 ==> bit_shape_matches(
                #[trigger] self.bit_shapes[p][r][s],
                p,
                r as nat,
                s - 2,
            )
        &&& forall|p: int, r: int|
            0 <= p < 7 && 0 <= r < 4 ==> height_map_matches(
                #[trigger] self.height_maps[p][r],
                p,
                r as nat,
            )
        &&& forall|p: int, r: int|
            0 <= p < 7 && 0 <= r < 4 ==> {
                let b = #[trigger] self.location_bounds[p][r];
                let lb = location_bounds(p, r as nat);
                b.0 == lb.0 && b.1 == lb.1 && b.2 == lb.2 && b.3 == lb.3
            }
        &&& forall|p: int, r: int|
            0 <= p < 7 && 0 <= r < 4 ==> {
                let b = #[trigger] self.shift_bounds[p][r];
                b.0 == shift_bounds(p, r as nat).0 && b.1 == shift_bounds(p, r as nat).1
            }
        &&& self.kick_table@.len() == 7
        &&& forall|p: int| 0 <= p < 7 ==> (#[trigger] self.kick_table@[p])@.len() == 4
        &&& forall|p: int, f: int|
            0 <= p < 7 && 0 <= f < 4 ==> (#[trigger] self.kick_table@[p]@[f])@.len() == 4
        &&& forall|p: int, f: int, g: int|
            0 <= p < 7 && 0 <= f < 4 && 0 <= g < 4 ==> kicks_match(
                (#[trigger] self.kick_table@[p]@[f]@[g])@,
                kick_table(p, f, g),
            )
    }

    /// Computes every table.
    pub fn new() -> (info: Self)
        ensures
            info.wf(),
    {
        let mut spawn_locations = [(3i8, 19i8); 7];
        spawn_locations[1] = (3, 18);

        let mut shapes = [[[[false; 4]; 4]; 4]; 7];
        let mut piece: usize = 0;
        while piece < 7
            invariant
                piece <= 7,
                forall|p: int, r: int|
                    0 <= p < piece && 0 <= r < 4 ==> shape_matches(#[trigger] shapes[p][r], p, r as nat),
            decreases 7 - piece,
        {
            let size: usize = if piece == 0 {
                2
            } else if piece == 1 {
                4
            } else {
                3
            };
            let mut shape = base_shape(piece);
            let mut rotation: usize = 0;
            while rotation < 4
                invariant
                    piece < 7,
                    rotation <= 4,
                    size == spec_piece_size(piece as int),
                    shape_matches(shape, piece as int, rotation as nat),
                    forall|p: int, r: int|
                        0 <= p < piece && 0 <= r < 4 ==> shape_matches(#[trigger] shapes[p][r], p, r as nat),
                    forall|r: int| 0 <= r < rotation ==> shape_matches(#[trigger] shapes[piece as int][r], piece as int, r as nat),
                decreases 4 - rotation,
            {
                shapes[piece][rotation] = shape;
                let ghost prev = shape;
                if piece != 0 {
                    shape = rotate_shape(shape, size);
                }
                assert forall|x: int, y: int| 0 <= x < 4 && 0 <= y < 4 implies shape[x][y] == shape_cell(
                    piece as int,
                    (rotation + 1) as nat,
                    x,
                    y,
                ) by {
                    if piece != 0 {
                        if x < size && y < size {
                            assert(prev[size - 1 - y][x] == shape_cell(
                                piece as int,
                                rotation as nat,
                                size - 1 - y,
                                x,
                            ));
                        } else {
                            assert(!shape_cell(piece as int, (rotation + 1) as nat, x, y));
                        }
                    } else {
                        assert(prev[x][y] == shape_cell(piece as int, rotation as nat, x, y));
                        assert(shape_cell(piece as int, rotation as nat, x, y) == base_cell(
                            piece as int,
                            x,
                            y,
                        ));
                    }
                }
                rotation += 1;
            }
            piece += 1;
        }

        let mut bit_shapes = [[[[0u16; 4]; 11]; 4]; 7];
        let mut piece: usize = 0;
        while piece < 7
            invariant
                piece <= 7,
                forall|p: int, r: int|
                    0 <= p < 7 && 0 <= r < 4 ==> shape_matches(#[trigger] shapes[p][r], p, r as nat),
                forall|p: int, r: int, s: int|
                    0 <= p < piece && 0 <= r < 4 && 0 <= s < 11 ==> bit_shape_matches(
                        #[trigger] bit_shapes[p][r][s],
                        p,
                        r as nat,
                        s - 2,
                    ),
            decreases 7 - piece,
        {
            let mut rotation: usize = 0;
            while rotation < 4
                invariant
                    piece < 7,
                    rotation <= 4,
                    forall|p: int, r: int|
                        0 <= p < 7 && 0 <= r < 4 ==> shape_matches(#[trigger] shapes[p][r], p, r as nat),
                    forall|p: int, r: int, s: int|
                        0 <= p < piece && 0 <= r < 4 && 0 <= s < 11 ==> bit_shape_matches(
                            #[trigger] bit_shapes[p][r][s],
                            p,
                            r as nat,
                            s - 2,
                        ),
                    forall|r: int, s: int|
                        0 <= r < rotation && 0 <= s < 11 ==> bit_shape_matches(
                            #[trigger] bit_shapes[piece as int][r][s],
                            piece as int,
                            r as nat,
                            s - 2,
                        ),
                decreases 4 - rotation,
            {
                let shape = shapes[piece][rotation];
                let mut s: usize = 0;
                while s < 11
                    invariant
                        piece < 7,
                        rotation < 4,
                        s <= 11,
                        shape_matches(shape, piece as int, rotation as nat),
                        forall|p: int, r: int|
                            0 <= p < 7 && 0 <= r < 4 ==> shape_matches(#[trigger] shapes[p][r], p, r as nat),
                        forall|p: int, r: int, ss: int|
                            0 <= p < piece && 0 <= r < 4 && 0 <= ss < 11 ==> bit_shape_matches(
                                #[trigger] bit_shapes[p][r][ss],
                                p,
                                r as nat,
                                ss - 2,
                            ),
                        forall|r: int, ss: int|
                            0 <= r < rotation && 0 <= ss < 11 ==> bit_shape_matches(
                                #[trigger] bit_shapes[piece as int][r][ss],
                                piece as int,
                                r as nat,
                                ss - 2,
                            ),
                        forall|ss: int|
                            0 <= ss < s ==> bit_shape_matches(
                                #[trigger] bit_shapes[piece as int][rotation as int][ss],
                                piece as int,
                                rotation as nat,
                                ss - 2,
                            ),
                    decreases 11 - s,
                {
                    let x: i8 = s as i8 - 2;
                    bit_shapes[piece][rotation][s] = bit_shape_of(piece, rotation, shape, x);
                    s += 1;
                }
                rotation += 1;
            }
            piece += 1;
        }

        let mut height_maps = [[[(0i8, 0i8); 4]; 4]; 7];
        let mut location_bounds = [[(0i8, 0i8, 0i8, 0i8); 4]; 7];
        let mut shift_bounds = [[(0i8, 0i8); 4]; 7];
        let mut piece: usize = 0;
        while piece < 7
            invariant
                piece <= 7,
                forall|p: int, r: int|
                    0 <= p < 7 && 0 <= r < 4 ==> shape_matches(#[trigger] shapes[p][r], p, r as nat),
                forall|p: int, r: int, s: int|
                    0 <= p < 7 && 0 <= r < 4 && 0 <= s < 11 ==> bit_shape_matches(
                        #[trigger] bit_shapes[p][r][s],
                        p,
                        r as nat,
                        s - 2,
                    ),
                forall|p: int, r: int|
                    0 <= p < piece && 0 <= r < 4 ==> height_map_matches(
                        #[trigger] height_maps[p][r],
                        p,
                        r as nat,
                    ),
                forall|p: int, r: int|
                    0 <= p < piece && 0 <= r < 4 ==> {
                        let b = #[trigger] location_bounds[p][r];
                        let lb = self::location_bounds(p, r as nat);
                        b.0 == lb.0 && b.1 == lb.1 && b.2 == lb.2 && b.3 == lb.3
                    },
                forall|p: int, r: int|
                    0 <= p < piece && 0 <= r < 4 ==> {
                        let b = #[trigger] shift_bounds[p][r];
                        b.0 == self::shift_bounds(p, r as nat).0 && b.1 == self::shift_bounds(
                            p,
                            r as nat,
                        ).1
                    },
            decreases 7 - piece,
        {
            let mut rotation: usize = 0;
            while rotation < 4
                invariant
                    piece < 7,
                    rotation <= 4,
                    forall|p: int, r: int|
                        0 <= p < 7 && 0 <= r < 4 ==> shape_matches(#[trigger] shapes[p][r], p, r as nat),
                    forall|p: int, r: int, s: int|
                        0 <= p < 7 && 0 <= r < 4 && 0 <= s < 11 ==> bit_shape_matches(
                            #[trigger] bit_shapes[p][r][s],
                            p,
                            r as nat,
                            s - 2,
                        ),
                    forall|p: int, r: int|
                        (0 <= p < piece && 0 <= r < 4) || (p == piece && 0 <= r < rotation)
                            ==> height_map_matches(#[trigger] height_maps[p][r], p, r as nat),
                    forall|p: int, r: int|
                        (0 <= p < piece && 0 <= r < 4) || (p == piece && 0 <= r < rotation) ==> {
                            let b = #[trigger] location_bounds[p][r];
                            let lb = self::location_bounds(p, r as nat);
                            b.0 == lb.0 && b.1 == lb.1 && b.2 == lb.2 && b.3 == lb.3
                        },
                    forall|p: int, r: int|
                        (0 <= p < piece && 0 <= r < 4) || (p == piece && 0 <= r < rotation) ==> {
                            let b = #[trigger] shift_bounds[p][r];
                            b.0 == self::shift_bounds(p, r as nat).0 && b.1
                                == self::shift_bounds(p, r as nat).1
                        },
                decreases 4 - rotation,
            {
                let shape = shapes[piece][rotation];
                let center = bit_shapes[piece][rotation][5];
                let height_map = height_map_of(piece, rotation, shape);
                height_maps[piece][rotation] = height_map;
                let bounds = location_bounds_of(piece, rotation, height_map, center);
                proof {
                    lemma_location_bounds_range(piece as int, rotation as nat);
                }
                location_bounds[piece][rotation] = bounds;
                shift_bounds[piece][rotation] = (3 - bounds.0, bounds.1 - 3);
                rotation += 1;
            }
            piece += 1;
        }

        let mut kick_table: Vec<Vec<Vec<Vec<(i8, i8)>>>> = Vec::new();
        let mut piece: usize = 0;
        while piece < 7
            invariant
                piece <= 7,
                kick_table@.len() == piece,
                forall|p: int| 0 <= p < piece ==> (#[trigger] kick_table@[p])@.len() == 4,
                forall|p: int, f: int|
                    0 <= p < piece && 0 <= f < 4 ==> (#[trigger] kick_table@[p]@[f])@.len() == 4,
                forall|p: int, f: int, g: int|
                    0 <= p < piece && 0 <= f < 4 && 0 <= g < 4 ==> kicks_match(
                        (#[trigger] kick_table@[p]@[f]@[g])@,
                        self::kick_table(p, f, g),
                    ),
            decreases 7 - piece,
        {
            let mut by_from: Vec<Vec<Vec<(i8, i8)>>> = Vec::new();
            let mut from: usize = 0;
            while from < 4
                invariant
                    piece < 7,
                    from <= 4,
                    by_from@.len() == from,
                    forall|f: int| 0 <= f < from ==> (#[trigger] by_from@[f])@.len() == 4,
                    forall|f: int, g: int|
                        0 <= f < from && 0 <= g < 4 ==> kicks_match(
                            (#[trigger] by_from@[f]@[g])@,
                            self::kick_table(piece as int, f, g),
                        ),
                decreases 4 - from,
            {
                let mut by_to: Vec<Vec<(i8, i8)>> = Vec::new();
                let mut to: usize = 0;
                while to < 4
                    invariant
                        piece < 7,
                        from < 4,
                        to <= 4,
                        by_to@.len() == to,
                        forall|g: int|
                            0 <= g < to ==> kicks_match(
                                (#[trigger] by_to@[g])@,
                                self::kick_table(piece as int, from as int, g),
                            ),
                    decreases 4 - to,
                {
                    by_to.push(kick_table_of(piece, from, to));
                    to += 1;
                }
                by_from.push(by_to);
                from += 1;
            }
            kick_table.push(by_from);
            piece += 1;
        }

        PieceInfo {
            spawn_locations,
            shapes,
            bit_shapes,
            height_maps,
            location_bounds,
            shift_bounds,
            kick_table,
        }
    }
}

/// Every location bound lies where the board and the bit tables can hold it.
pub proof fn lemma_location_bounds_range(t: int, r: nat)
    ensures
        -4 <= location_bounds(t, r).0 <= 0,
        6 <= location_bounds(t, r).1 <= 10,
        -4 <= location_bounds(t, r).2 <= 0,
        20 <= location_bounds(t, r).3 <= 24,
{
    lemma_lead_cols_range(t, r, 4);
    lemma_trail_cols_range(t, r, 4);
    lemma_lead_rows_range(t, r, 4);
    lemma_trail_rows_range(t, r, 4);
}

/// At most `n` of `n` columns are empty leading ones.
pub proof fn lemma_lead_cols_range(t: int, r: nat, n: nat)
    ensures
        0 <= lead_empty_cols(t, r, n) <= n,
    decreases n,
{
    if n > 0 {
        lemma_lead_cols_range(t, r, (n - 1) as nat);
    }
}

/// At most `n` of `n` columns are empty trailing ones.
pub proof fn lemma_trail_cols_range(t: int, r: nat, n: nat)
    ensures
        0 <= trail_empty_cols(t, r, n) <= n,
    decreases n,
{
    if n > 0 {
        lemma_trail_cols_range(t, r, (n - 1) as nat);
    }
}

proof fn lemma_lead_rows_range(t: int, r: nat, n: nat)
    ensures
        0 <= lead_empty_rows(t, r, n) <= n,
    decreases n,
{
    if n > 0 {
        lemma_lead_rows_range(t, r, (n - 1) as nat);
    }
}

proof fn lemma_trail_rows_range(t: int, r: nat, n: nat)
    ensures
        0 <= trail_empty_rows(t, r, n) <= n,
    decreases n,
{
    if n > 0 {
        lemma_trail_rows_range(t, r, (n - 1) as nat);
    }
}

/// Cell `c` of row `j` of the board rows of a shape at column `x` is set
/// exactly where the shape has a cell inside the ten columns.
pub proof fn lemma_bit_row_bit(t: int, r: nat, x: int, j: int, n: nat, c: int)
    requires
        n <= 4,
        0 <= c < 16,
    ensures
        has_bit(bit_row_upto(t, r, x, j, n), c) == (0 <= c - x < n && c < 10 && shape_cell(
            t,
            r,
            c - x,
            j,
        )),
    decreases n,
{
    if n == 0 {
        lemma_zero_has_no_bit(c as u16);
    } else {
        lemma_bit_row_bit(t, r, x, j, (n - 1) as nat, c);
        let i = n - 1;
        if shape_cell(t, r, i, j) && 0 <= x + i < 10 {
            lemma_bit_or_single(
                bit_row_upto(t, r, x, j, (n - 1) as nat),
                (x + i) as u16,
                c as u16,
            );
        }
    }
}

/// The center cell of the box stays filled in every orientation of every
/// piece but I, and the I piece always fills column 1 or column 2.
pub proof fn lemma_middle_column_filled(t: int, r: nat)
    requires
        0 <= t < 7,
        r < 4,
    ensures
        shape_cell(t, r, 1, 1) || shape_cell(t, r, 2, 0) || shape_cell(t, r, 1, 0) || shape_cell(
            t,
            r,
            1,
            2,
        ),
    decreases r,
{
    if t == 1 {
        if r == 0 {
            assert(shape_cell(t, r, 1, 2));
        } else if r == 1 {
            assert(shape_cell(t, 0, 3, 2));
            assert(shape_cell(t, r, 2, 0));
        } else if r == 2 {
            assert(shape_cell(t, 0, 2, 2));
            assert(shape_cell(t, 1, 2, 1));
            assert(shape_cell(t, r, 1, 1));
        } else {
            assert(shape_cell(t, 0, 0, 2));
            assert(shape_cell(t, 1, 2, 3));
            assert(shape_cell(t, 2, 3, 1));
            assert(shape_cell(t, r, 1, 0));
        }
    } else if r > 0 && t != 0 {
        lemma_center_stays(t, r);
    }
}

proof fn lemma_center_stays(t: int, r: nat)
    requires
        2 <= t < 7,
    ensures
        shape_cell(t, r, 1, 1),
    decreases r,
{
    if r > 0 {
        lemma_center_stays(t, (r - 1) as nat);
    }
}

/// A column with a cell among its first `n` rows has a lowest cell.
pub proof fn lemma_first_below_found(t: int, r: nat, i: int, j: int, n: nat)
    requires
        0 <= j < n,
        shape_cell(t, r, i, j),
    ensures
        0 <= first_below(t, r, i, n) <= j,
        shape_cell(t, r, i, first_below(t, r, i, n)),
    decreases n,
{
    if j < n - 1 {
        lemma_first_below_found(t, r, i, j, (n - 1) as nat);
    } else {
        lemma_first_below_props(t, r, i, (n - 1) as nat);
    }
}

/// The lowest cell of a column is filled and nothing under it is.
pub proof fn lemma_first_below_props(t: int, r: nat, i: int, n: nat)
    ensures
        -1 <= first_below(t, r, i, n) < n,
        first_below(t, r, i, n) != -1 ==> shape_cell(t, r, i, first_below(t, r, i, n)),
        forall|j: int|
            0 <= j < n && (first_below(t, r, i, n) == -1 || j < first_below(t, r, i, n))
                ==> !shape_cell(t, r, i, j),
    decreases n,
{
    if n > 0 {
        lemma_first_below_props(t, r, i, (n - 1) as nat);
    }
}

/// Empty columns on the left edge stop at the first filled column.
pub proof fn lemma_lead_cols_le(t: int, r: nat, i: int, n: nat)
    requires
        0 <= i < n <= 4,
        !col_empty(t, r, i),
    ensures
        lead_empty_cols(t, r, n) <= i,
    decreases n,
{
    lemma_lead_cols_range(t, r, (n - 1) as nat);
    if i < n - 1 {
        lemma_lead_cols_le(t, r, i, (n - 1) as nat);
    }
}

/// Empty columns on the right edge stop at the last filled column.
pub proof fn lemma_trail_cols_le(t: int, r: nat, i: int, n: nat)
    requires
        0 <= 4 - n <= i < 4,
        !col_empty(t, r, i),
    ensures
        trail_empty_cols(t, r, n) <= 3 - i,
    decreases n,
{
    lemma_trail_cols_range(t, r, (n - 1) as nat);
    if i > 4 - n {
        lemma_trail_cols_le(t, r, i, (n - 1) as nat);
    }
}

/// Empty rows at the bottom of the box stop at the first filled row.
pub proof fn lemma_lead_rows_le(t: int, r: nat, j: int, n: nat)
    requires
        0 <= j < n <= 4,
        !row_empty(t, r, j),
    ensures
        lead_empty_rows(t, r, n) <= j,
    decreases n,
{
    lemma_lead_rows_range(t, r, (n - 1) as nat);
    if j < n - 1 {
        lemma_lead_rows_le(t, r, j, (n - 1) as nat);
    }
}

/// When the bottom rows of the box are not all empty, the first row above
/// them is filled.
pub proof fn lemma_lead_rows_filled(t: int, r: nat, n: nat)
    requires
        n <= 4,
        lead_empty_rows(t, r, n) < n,
    ensures
        !row_empty(t, r, lead_empty_rows(t, r, n)),
        forall|j: int| 0 <= j < lead_empty_rows(t, r, n) ==> row_empty(t, r, j),
    decreases n,
{
    lemma_lead_rows_range(t, r, (n - 1) as nat);
    if lead_empty_rows(t, r, (n - 1) as nat) < n - 1 {
        lemma_lead_rows_filled(t, r, (n - 1) as nat);
    } else {
        lemma_lead_rows_all_empty(t, r, (n - 1) as nat);
    }
}

proof fn lemma_lead_rows_all_empty(t: int, r: nat, n: nat)
    requires
        lead_empty_rows(t, r, n) == n,
    ensures
        forall|j: int| 0 <= j < n ==> row_empty(t, r, j),
    decreases n,
{
    if n > 0 {
        lemma_lead_rows_range(t, r, (n - 1) as nat);
        lemma_lead_rows_all_empty(t, r, (n - 1) as nat);
    }
}

/// A filled cell makes its row non-empty.
pub proof fn lemma_cell_row_nonempty(t: int, r: nat, i: int, j: int)
    requires
        0 <= i < 4,
        shape_cell(t, r, i, j),
    ensures
        !row_empty(t, r, j),
{
    lemma_bit_row_bit(t, r, 3, j, 4, 3 + i);
    lemma_zero_has_no_bit((3 + i) as u16);
}

/// A non-empty row holds a filled cell.
pub proof fn lemma_row_nonempty_cell(t: int, r: nat, j: int) -> (i: int)
    requires
        !row_empty(t, r, j),
    ensures
        0 <= i < 4,
        shape_cell(t, r, i, j),
{
    let row = bit_row(t, r, 3, j);
    if forall|c: int| 0 <= c < 16 ==> !has_bit(row, c) {
        assert forall|c: int| 0 <= c < 16 implies has_bit(row, c) == has_bit(0u16, c) by {
            lemma_zero_has_no_bit(c as u16);
        }
        crate::bits::lemma_bits_equal(row, 0u16);
        assert(false);
        0
    } else {
        let c = choose|c: int| 0 <= c < 16 && has_bit(row, c);
        lemma_bit_row_bit(t, r, 3, j, 4, c);
        c - 3
    }
}

/// Every shape lies within columns 0 to 3 of its box with at most two
/// empty columns on either side, and has a filled row.
pub proof fn lemma_shape_extent(t: int, r: nat)
    requires
        0 <= t < 7,
        r < 4,
    ensures
        lead_empty_cols(t, r, 4) <= 2,
        trail_empty_cols(t, r, 4) <= 2,
        lead_empty_rows(t, r, 4) < 4,
        -2 <= location_bounds(t, r).0,
        location_bounds(t, r).1 <= 8,
{
    lemma_middle_column_filled(t, r);
    if shape_cell(t, r, 1, 1) {
        lemma_first_below_found(t, r, 1, 1, 4);
        lemma_lead_cols_le(t, r, 1, 4);
        lemma_trail_cols_le(t, r, 1, 4);
        lemma_cell_row_nonempty(t, r, 1, 1);
        lemma_lead_rows_le(t, r, 1, 4);
    } else if shape_cell(t, r, 2, 0) {
        lemma_first_below_found(t, r, 2, 0, 4);
        lemma_lead_cols_le(t, r, 2, 4);
        lemma_trail_cols_le(t, r, 2, 4);
        lemma_cell_row_nonempty(t, r, 2, 0);
        lemma_lead_rows_le(t, r, 0, 4);
    } else if shape_cell(t, r, 1, 0) {
        lemma_first_below_found(t, r, 1, 0, 4);
        lemma_lead_cols_le(t, r, 1, 4);
        lemma_trail_cols_le(t, r, 1, 4);
        lemma_cell_row_nonempty(t, r, 1, 0);
        lemma_lead_rows_le(t, r, 0, 4);
    } else {
        lemma_first_below_found(t, r, 1, 2, 4);
        lemma_lead_cols_le(t, r, 1, 4);
        lemma_trail_cols_le(t, r, 1, 4);
        lemma_cell_row_nonempty(t, r, 1, 2);
        lemma_lead_rows_le(t, r, 2, 4);
    }
}

/// Each orientation but the spawn one is the previous one turned a quarter
/// clockwise inside the piece's box, the fourth turn gives the spawn
/// orientation back, the O piece keeps its shape, and no cell lies outside
/// the box.
pub proof fn lemma_quarter_turns(t: int, r: nat, x: int, y: int)
    requires
        0 <= t < 7,
        r < 4,
    ensures
        t == 0 ==> shape_cell(t, r, x, y) == shape_cell(t, 0, x, y),
        !(0 <= x < spec_piece_size(t) && 0 <= y < spec_piece_size(t)) && t != 0 ==> !shape_cell(t, r, x, y),
        t != 0 && 0 <= x < spec_piece_size(t) && 0 <= y < spec_piece_size(t) ==> shape_cell(
            t,
            ((r + 1) % 4) as nat,
            y,
            spec_piece_size(t) - 1 - x,
        ) == shape_cell(t, r, x, y),
{
    let s = spec_piece_size(t);
    if t != 0 && 0 <= x < s && 0 <= y < s {
        if r == 3 {
            assert(shape_cell(t, 3, x, y) == shape_cell(t, 2, s - 1 - y, x));
            assert(shape_cell(t, 2, s - 1 - y, x) == shape_cell(t, 1, s - 1 - x, s - 1 - y));
            assert(shape_cell(t, 1, s - 1 - x, s - 1 - y) == shape_cell(t, 0, y, s - 1 - x));
        }
    }
}

/// Number of cells among the first `k` of the box, read column by column.
pub open spec fn cells_upto(t: int, r: nat, k: nat) -> int
    decreases k,
{
    if k == 0 {
        0
    } else {
        cells_upto(t, r, (k - 1) as nat) + if shape_cell(t, r, (k - 1) / 4, (k - 1) % 4) {
            1int
        } else {
            0int
        }
    }
}

/// Every piece has four cells in every orientation.
pub proof fn lemma_four_cells(t: int, r: nat)
    requires
        0 <= t < 7,
        r < 4,
    ensures
        cells_upto(t, r, 16) == 4,
{
    reveal_with_fuel(cells_upto, 17);
    reveal_with_fuel(shape_cell, 5);
    if t == 0 {
    } else if t == 1 {
        if r == 0 {} else if r == 1 {} else if r == 2 {} else {}
    } else if t == 2 {
        if r == 0 {} else if r == 1 {} else if r == 2 {} else {}
    } else if t == 3 {
        if r == 0 {} else if r == 1 {} else if r == 2 {} else {}
    } else if t == 4 {
        if r == 0 {} else if r == 1 {} else if r == 2 {} else {}
    } else if t == 5 {
        if r == 0 {} else if r == 1 {} else if r == 2 {} else {}
    } else {
        if r == 0 {} else if r == 1 {} else if r == 2 {} else {}
    }
}

/// The rows of column `i` below row `n` that the shape fills.
pub open spec fn filled_rows(t: int, r: nat, i: int, n: nat) -> Set<int> {
    Set::new(|j: int| 0 <= j < n && shape_cell(t, r, i, j))
}

proof fn lemma_count_filled(t: int, r: nat, i: int, n: nat)
    ensures
        filled_rows(t, r, i, n).finite(),
        filled_rows(t, r, i, n).len() == count_below(t, r, i, n),
    decreases n,
{
    if n == 0 {
        assert(filled_rows(t, r, i, 0) =~= Set::<int>::empty());
    } else {
        lemma_count_filled(t, r, i, (n - 1) as nat);
        let prev = filled_rows(t, r, i, (n - 1) as nat);
        if shape_cell(t, r, i, n - 1) {
            assert(filled_rows(t, r, i, n) =~= prev.insert(n - 1));
        } else {
            assert(filled_rows(t, r, i, n) =~= prev);
        }
    }
}

/// A column's height-map entry is its lowest filled row and the number of
/// its filled rows, or `(-1, -1)` when it has none.
pub proof fn lemma_height_entry(t: int, r: nat, i: int)
    ensures
        filled_rows(t, r, i, 4).finite(),
        filled_rows(t, r, i, 4).len() == 0 ==> height_entry(t, r, i) == (-1int, -1int),
        filled_rows(t, r, i, 4).len() > 0 ==> {
            &&& filled_rows(t, r, i, 4).contains(height_entry(t, r, i).0)
            &&& forall|j: int| #[trigger] filled_rows(t, r, i, 4).contains(j) ==> height_entry(t, r, i).0 <= j
            &&& height_entry(t, r, i).1 == filled_rows(t, r, i, 4).len()
        },
{
    lemma_count_filled(t, r, i, 4);
    lemma_first_below_props(t, r, i, 4);
    let ys = filled_rows(t, r, i, 4);
    if first_below(t, r, i, 4) == -1 {
        assert(ys =~= Set::<int>::empty());
    } else {
        assert(ys.contains(first_below(t, r, i, 4)));
    }
}

/// Every filled column of the shape, its box's left edge at column `x`,
/// lies on the ten columns of the board.
pub open spec fn columns_on_board(t: int, r: nat, x: int) -> bool {
    forall|i: int| 0 <= i < 4 && !#[trigger] col_empty(t, r, i) ==> 0 <= x + i < 10
}

proof fn lemma_lead_col_filled(t: int, r: nat, n: nat)
    requires
        n <= 4,
        lead_empty_cols(t, r, n) < n,
    ensures
        !col_empty(t, r, lead_empty_cols(t, r, n)),
    decreases n,
{
    lemma_lead_cols_range(t, r, (n - 1) as nat);
    if lead_empty_cols(t, r, (n - 1) as nat) < n - 1 {
        lemma_lead_col_filled(t, r, (n - 1) as nat);
    }
}

proof fn lemma_trail_col_filled(t: int, r: nat, n: nat)
    requires
        n <= 4,
        trail_empty_cols(t, r, n) < n,
    ensures
        !col_empty(t, r, 3 - trail_empty_cols(t, r, n)),
    decreases n,
{
    lemma_trail_cols_range(t, r, (n - 1) as nat);
    if trail_empty_cols(t, r, (n - 1) as nat) < n - 1 {
        lemma_trail_col_filled(t, r, (n - 1) as nat);
    }
}

/// The location bounds are the least and the greatest column of the box's
/// left edge that keep the piece on the board, so the shift bounds are how
/// far the piece can move left and right from the spawn column.
pub proof fn lemma_location_bounds_exact(t: int, r: nat)
    requires
        0 <= t < 7,
        r < 4,
    ensures
        forall|x: int| #[trigger] columns_on_board(t, r, x) <==> location_bounds(t, r).0 <= x <= location_bounds(t, r).1,
        shift_bounds(t, r) == (spawn_location(t).0 - location_bounds(t, r).0, location_bounds(t, r).1 - spawn_location(t).0),
{
    lemma_middle_column_filled(t, r);
    let i0: int = if shape_cell(t, r, 1, 1) {
        lemma_first_below_found(t, r, 1, 1, 4);
        1
    } else if shape_cell(t, r, 2, 0) {
        lemma_first_below_found(t, r, 2, 0, 4);
        2
    } else if shape_cell(t, r, 1, 0) {
        lemma_first_below_found(t, r, 1, 0, 4);
        1
    } else {
        lemma_first_below_found(t, r, 1, 2, 4);
        1
    };
    assert(!col_empty(t, r, i0));
    lemma_lead_cols_le(t, r, i0, 4);
    lemma_trail_cols_le(t, r, i0, 4);
    lemma_lead_cols_range(t, r, 4);
    lemma_trail_cols_range(t, r, 4);
    lemma_lead_col_filled(t, r, 4);
    lemma_trail_col_filled(t, r, 4);
    let lead = lead_empty_cols(t, r, 4);
    let trail = trail_empty_cols(t, r, 4);
    assert forall|x: int| #[trigger] columns_on_board(t, r, x) <==> location_bounds(t, r).0 <= x <= location_bounds(t, r).1 by {
        if columns_on_board(t, r, x) {
            assert(!col_empty(t, r, lead));
            assert(!col_empty(t, r, 3 - trail));
            assert(0 <= lead < 4 && 0 <= 3 - trail < 4);
            assert(0 <= x + lead);
            assert(x + 3 - trail < 10);
        }
        if location_bounds(t, r).0 <= x <= location_bounds(t, r).1 {
            assert forall|i: int| 0 <= i < 4 && !#[trigger] col_empty(t, r, i) implies 0 <= x + i < 10 by {
                lemma_lead_cols_le(t, r, i, 4);
                lemma_trail_cols_le(t, r, i, 4);
            }
        }
    }
}

proof fn lemma_shr_bit(a: u16, s: u16, c: u16)
    requires
        s < 16,
        c < 16,
    ensures
        has_bit(a >> s, c as int) == (c + s < 16 && has_bit(a, c + s)),
{
    if c + s < 16 {
        let cs = (c + s) as u16;
        assert(((a >> s) & (1u16 << c) != 0) == (a & (1u16 << cs) != 0)) by (bit_vector)
            requires
                s < 16,
                c < 16,
                cs == c + s,
        ;
    } else {
        assert((a >> s) & (1u16 << c) == 0) by (bit_vector)
            requires
                s < 16,
                c < 16,
                c + s >= 16,
        ;
    }
}

proof fn lemma_shl_mask_bit(a: u16, s: u16, c: u16)
    requires
        s < 16,
        c < 16,
    ensures
        has_bit((a << s) & 1023u16, c as int) == (c < 10 && c >= s && has_bit(a, c - s)),
{
    if c < 10 && c >= s {
        let cs = (c - s) as u16;
        assert((((a << s) & 1023u16) & (1u16 << c) != 0) == (a & (1u16 << cs) != 0)) by (bit_vector)
            requires
                s < 16,
                c < 10,
                c >= s,
                cs == c - s,
        ;
    } else {
        assert(((a << s) & 1023u16) & (1u16 << c) == 0) by (bit_vector)
            requires
                s < 16,
                c < 16,
                c >= 10 || c < s,
        ;
    }
}

/// A row of a shape placed `s` columns left of the spawn column is the row
/// at the spawn column shifted right by `s`, and placed `s` columns right,
/// that row shifted left by `s` and cut to the ten columns.
pub proof fn lemma_shifted_rows(t: int, r: nat, j: int, s: u16)
    requires
        1 <= s < 5,
    ensures
        bit_row(t, r, 3 - s, j) == bit_row(t, r, 3, j) >> s,
        bit_row(t, r, 3 + s, j) == (bit_row(t, r, 3, j) << s) & 1023u16,
{
    let center = bit_row(t, r, 3, j);
    assert forall|c: int| 0 <= c < 16 implies has_bit(bit_row(t, r, 3 - s, j), c) == has_bit(center >> s, c) by {
        lemma_bit_row_bit(t, r, 3 - s, j, 4, c);
        lemma_shr_bit(center, s, c as u16);
        if c + s < 16 {
            lemma_bit_row_bit(t, r, 3, j, 4, c + s);
        }
    }
    crate::bits::lemma_bits_equal(bit_row(t, r, 3 - s, j), center >> s);
    assert forall|c: int| 0 <= c < 16 implies has_bit(bit_row(t, r, 3 + s, j), c) == has_bit((center << s) & 1023u16, c) by {
        lemma_bit_row_bit(t, r, 3 + s, j, 4, c);
        lemma_shl_mask_bit(center, s, c as u16);
        if c >= s {
            lemma_bit_row_bit(t, r, 3, j, 4, c - s);
        }
    }
    crate::bits::lemma_bits_equal(bit_row(t, r, 3 + s, j), (center << s) & 1023u16);
}

/// In the tables, the rows of a shape placed `s` columns left of the
/// spawn column are the spawn rows shifted right by `s`, and those placed
/// `s` columns right are the spawn rows shifted left by `s` and cut to the
/// ten columns.
pub proof fn lemma_table_shifts(info: PieceInfo, p: int, r: int, s: u16, j: int)
    requires
        info.wf(),
        0 <= p < 7,
        0 <= r < 4,
        1 <= s < 5,
        0 <= j < 4,
    ensures
        info.bit_shapes[p][r][5 - s][j] == info.bit_shapes[p][r][5][j] >> s,
        info.bit_shapes[p][r][5 + s][j] == (info.bit_shapes[p][r][5][j] << s) & 1023u16,
{
    assert(bit_shape_matches(info.bit_shapes[p][r][5], p, r as nat, 3));
    assert(bit_shape_matches(info.bit_shapes[p][r][5 - s], p, r as nat, 3 - s));
    assert(bit_shape_matches(info.bit_shapes[p][r][5 + s], p, r as nat, 3 + s));
    lemma_shifted_rows(p, r as nat, j, s);
}

} // verus!

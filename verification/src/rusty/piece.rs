//! The seven pieces of the compact model and their precomputed tables.
//!
//! Shapes are the ones of `crate::common::computed`; the board rows here
//! put the box's column `i` at bit `6 - i`.
use vstd::prelude::*;
use crate::bits::{has_bit, lemma_bit_or_single, lemma_zero_has_no_bit};
use crate::common::computed::{
    shape_cell,
    shape_matches,
    first_below,
    count_below,
    col_empty,
    lead_empty_cols,
    trail_empty_cols,
    lemma_first_below_props,
    lemma_lead_cols_le,
    lemma_trail_cols_le,
    lemma_shape_extent,
    lemma_lead_cols_stable,
    lemma_trail_cols_stable,
    lemma_lead_cols_range,
    lemma_trail_cols_range,
    spec_piece_size,
    base_cell,
};

verus! {

/// Cell `(a, b)` of a box of side `s` lies in ring `l` and has already been
/// turned once the elements `l..e` of that ring were processed.
pub open spec fn ring_done(a: int, b: int, l: int, e: int, s: int) -> bool {
    ||| (a == l && l <= b < e)
    ||| (b == s - 1 - l && l <= a < e)
    ||| (a == s - 1 - l && l <= s - 1 - b < e)
    ||| (b == l && l <= s - 1 - a < e)
}

/// The ring of a cell of a box of side `s`: its distance to the box's edge.
pub open spec fn ring_of(a: int, b: int, s: int) -> int {
    let m1 = if a < b {
        a
    } else {
        b
    };
    let m2 = if s - 1 - a < s - 1 - b {
        s - 1 - a
    } else {
        s - 1 - b
    };
    if m1 < m2 {
        m1
    } else {
        m2
    }
}

/// Cell `(a, b)` of the box has been turned after the rings before `l`,
/// and elements `l..e` of ring `l`, were processed.
pub open spec fn cell_done(a: int, b: int, l: int, e: int, s: int) -> bool {
    ring_of(a, b, s) < l || (ring_of(a, b, s) == l && ring_done(a, b, l, e, s))
}

proof fn lemma_rotate_step(
    orig: [[bool; 4]; 4],
    prev: [[bool; 4]; 4],
    cur: [[bool; 4]; 4],
    s: int,
    l: int,
    e: int,
)
    requires
        s <= 4,
        0 <= l <= e < s - 1 - l,
        forall|a: int, b: int|
            0 <= a < 4 && 0 <= b < 4 ==> #[trigger] prev[a][b] == if a < s && b < s && cell_done(a, b, l, e, s) {
                orig[s - 1 - b][a]
            } else {
                orig[a][b]
            },
        forall|a: int, b: int|
            0 <= a < 4 && 0 <= b < 4 ==> #[trigger] cur[a][b] == if a == l && b == e {
                prev[s - 1 - e][l]
            } else if a == e && b == s - 1 - l {
                prev[l][e]
            } else if a == s - 1 - l && b == s - 1 - e {
                prev[e][s - 1 - l]
            } else if a == s - 1 - e && b == l {
                prev[s - 1 - l][s - 1 - e]
            } else {
                prev[a][b]
            },
    ensures
        forall|a: int, b: int|
            0 <= a < 4 && 0 <= b < 4 ==> #[trigger] cur[a][b] == if a < s && b < s && cell_done(a, b, l, e + 1, s) {
                orig[s - 1 - b][a]
            } else {
                orig[a][b]
            },
{
    assert forall|a: int, b: int|
        0 <= a < s && 0 <= b < s && !((a == l && b == e) || (a == e && b == s - 1 - l) || (a == s - 1
            - l && b == s - 1 - e) || (a == s - 1 - e && b == l)) implies #[trigger] cell_done(
        a,
        b,
        l,
        e + 1,
        s,
    ) == cell_done(a, b, l, e, s) by {}
    assert(!cell_done(s - 1 - e, l, l, e, s));
    assert(prev[s - 1 - e][l] == orig[s - 1 - e][l]);
    assert(cur[l][e] == prev[s - 1 - e][l]);
    assert(cur[l][e] == orig[s - 1 - e][l]);
    assert(!cell_done(l, e, l, e, s));
    assert(prev[l][e] == orig[l][e]);
    assert(cur[e][s - 1 - l] == prev[l][e]);
    assert(cur[e][s - 1 - l] == orig[l][e]);
    assert(!cell_done(e, s - 1 - l, l, e, s));
    assert(prev[e][s - 1 - l] == orig[e][s - 1 - l]);
    assert(cur[s - 1 - l][s - 1 - e] == prev[e][s - 1 - l]);
    assert(cur[s - 1 - l][s - 1 - e] == orig[e][s - 1 - l]);
    assert(!cell_done(s - 1 - l, s - 1 - e, l, e, s));
    assert(prev[s - 1 - l][s - 1 - e] == orig[s - 1 - l][s - 1 - e]);
    assert(cur[s - 1 - e][l] == prev[s - 1 - l][s - 1 - e]);
    assert(cur[s - 1 - e][l] == orig[s - 1 - l][s - 1 - e]);
    assert(cell_done(l, e, l, e + 1, s));
    assert(cell_done(e, s - 1 - l, l, e + 1, s));
    assert(cell_done(s - 1 - l, s - 1 - e, l, e + 1, s));
    assert(cell_done(s - 1 - e, l, l, e + 1, s));
    assert forall|a: int, b: int|
        0 <= a < 4 && 0 <= b < 4 && !(a < s && b < s) implies cur[a][b] == orig[a][b] by {
        assert(cur[a][b] == prev[a][b]);
        assert(prev[a][b] == orig[a][b]);
    }
    assert forall|a: int, b: int|
        0 <= a < s && 0 <= b < s && !((a == l && b == e) || (a == e && b == s - 1 - l) || (a == s - 1
            - l && b == s - 1 - e) || (a == s - 1 - e && b == l)) implies cur[a][b] == if cell_done(
        a,
        b,
        l,
        e + 1,
        s,
    ) {
        orig[s - 1 - b][a]
    } else {
        orig[a][b]
    } by {
        assert(cur[a][b] == prev[a][b]);
        assert(cell_done(a, b, l, e + 1, s) == cell_done(a, b, l, e, s));
    }
}

/// Finishing ring `l` finishes every cell of that ring.
proof fn lemma_ring_finished(s: int, l: int)
    requires
        0 <= l < s - 1 - l,
    ensures
        forall|a: int, b: int|
            0 <= a < s && 0 <= b < s ==> #[trigger] cell_done(a, b, l, s - 1 - l, s) == cell_done(
                a,
                b,
                l + 1,
                l + 1,
                s,
            ),
{
}

/// Once every ring is finished, only the center of an odd box is left.
proof fn lemma_rings_all_done(s: int)
    requires
        0 <= s <= 4,
    ensures
        forall|a: int, b: int|
            0 <= a < s && 0 <= b < s && !#[trigger] cell_done(a, b, s / 2, s / 2, s) ==> a == b && a == s - 1
                - a,
{
}

/// The effect of `rotate_array` on the 2 by 2 box at (1, 1): three of its
/// cells trade places, the fourth keeps its value.
pub open spec fn small_box_turned(old: [[bool; 4]; 4], new: [[bool; 4]; 4]) -> bool {
    forall|a: int, b: int|
        0 <= a < 4 && 0 <= b < 4 ==> #[trigger] new[a][b] == if a == 1 && b == 1 {
            old[2][1]
        } else if a == 1 && b == 2 {
            old[1][1]
        } else if a == 2 && b == 1 {
            old[1][2]
        } else {
            old[a][b]
        }
}

/// Turns the `size` by `size` box at the corner of `arr` a quarter turn
/// clockwise, in place.  With `offset` 1 and `size` 2 (the O piece) three
/// cells of the box at (1, 1) trade places instead.
#[verifier::rlimit(60)]
pub fn rotate_array(arr: &mut [[bool; 4]; 4], size: i32, offset: i32)
    requires
        (offset == 0 && 0 <= size <= 4) || (offset == 1 && size == 2),
    ensures
        offset == 0 ==> forall|a: int, b: int|
            0 <= a < 4 && 0 <= b < 4 ==> #[trigger] final(arr)[a][b] == if a < size && b < size {
                old(arr)[size - 1 - b][a]
            } else {
                old(arr)[a][b]
            },
        offset == 1 ==> small_box_turned(*old(arr), *final(arr)),
{
    let ghost o = offset as int;
    let ghost s = size as int;
    let ghost orig = *arr;
    let mut layer: i32 = 0;
    while layer < size / 2
        invariant
            (offset == 0 && 0 <= size <= 4) || (offset == 1 && size == 2),
            o == offset,
            s == size,
            0 <= layer <= size / 2,
            offset == 0 ==> forall|a: int, b: int|
                0 <= a < 4 && 0 <= b < 4 ==> #[trigger] arr[a][b] == if a < s && b < s && cell_done(
                    a,
                    b,
                    layer as int,
                    layer as int,
                    s,
                ) {
                    orig[s - 1 - b][a]
                } else {
                    orig[a][b]
                },
            offset == 1 ==> (layer == 0 ==> *arr == orig) && (layer == 1 ==> small_box_turned(orig, *arr)),
        decreases size / 2 - layer,
    {
        let first = layer + offset;
        let last = size - layer - 1 + offset;
        let mut element: i32 = first;
        while element < last
            invariant
                (offset == 0 && 0 <= size <= 4) || (offset == 1 && size == 2),
                o == offset,
                s == size,
                0 <= layer < size / 2,
                first == layer + offset,
                last == size - layer - 1 + offset,
                first <= element <= last,
                offset == 0 ==> forall|a: int, b: int|
                    0 <= a < 4 && 0 <= b < 4 ==> #[trigger] arr[a][b] == if a < s && b < s && cell_done(
                        a,
                        b,
                        layer as int,
                        element as int,
                        s,
                    ) {
                        orig[s - 1 - b][a]
                    } else {
                        orig[a][b]
                    },
                offset == 1 ==> (element == 1 ==> *arr == orig) && (element == 2 ==> small_box_turned(orig, *arr)),
            decreases last - element,
        {
            let element_last = size - element - 1 + offset;
            let ghost prev = *arr;
            let top = arr[first as usize][element as usize];
            let right = arr[element as usize][last as usize];
            let bottom = arr[last as usize][element_last as usize];
            let left = arr[element_last as usize][first as usize];
            arr[first as usize][element as usize] = left;
            arr[element as usize][last as usize] = top;
            arr[last as usize][element_last as usize] = right;
            arr[element_last as usize][first as usize] = bottom;
            proof {
                if offset == 0 {
                    let l = layer as int;
                    let e = element as int;
                    assert forall|a: int, b: int| 0 <= a < 4 && 0 <= b < 4 implies #[trigger] arr[a][b] == if a == l && b == e {
                        prev[s - 1 - e][l]
                    } else if a == e && b == s - 1 - l {
                        prev[l][e]
                    } else if a == s - 1 - l && b == s - 1 - e {
                        prev[e][s - 1 - l]
                    } else if a == s - 1 - e && b == l {
                        prev[s - 1 - l][s - 1 - e]
                    } else {
                        prev[a][b]
                    } by {}
                    lemma_rotate_step(orig, prev, *arr, s, l, e);
                } else {
                    assert(small_box_turned(orig, *arr));
                }
            }
            element += 1;
        }
        proof {
            if offset == 0 {
                lemma_ring_finished(s, layer as int);
            }
        }
        layer += 1;
    }
    proof {
        if offset == 0 {
            lemma_rings_all_done(s);
        }
    }
}

/// The board row bits of row `j` of `arr`, columns `0..n`, column `i` of
/// the box at bit `6 - i`.
pub open spec fn mirrored_row(arr: [[bool; 4]; 4], j: int, n: nat) -> u16
    decreases n,
{
    if n == 0 {
        0
    } else {
        let prev = mirrored_row(arr, j, (n - 1) as nat);
        if arr[n - 1][j] {
            prev | (1u16 << ((6 - (n - 1)) as u16))
        } else {
            prev
        }
    }
}

/// The board row bits of row `j` of type `t` in orientation `r`, columns
/// `0..n`, column `i` of the box at bit `6 - i`.
pub open spec fn rusty_bit_row(t: int, r: nat, j: int, n: nat) -> u16
    decreases n,
{
    if n == 0 {
        0
    } else {
        let prev = rusty_bit_row(t, r, j, (n - 1) as nat);
        if shape_cell(t, r, n - 1, j) {
            prev | (1u16 << ((6 - (n - 1)) as u16))
        } else {
            prev
        }
    }
}

/// The bits read from a shape array that matches type `t` in orientation
/// `r` are that shape's board row bits.
pub proof fn lemma_mirrored_row(arr: [[bool; 4]; 4], t: int, r: nat, j: int, n: nat)
    requires
        shape_matches(arr, t, r),
        0 <= j < 4,
        n <= 4,
    ensures
        mirrored_row(arr, j, n) == rusty_bit_row(t, r, j, n),
    decreases n,
{
    if n > 0 {
        lemma_mirrored_row(arr, t, r, j, (n - 1) as nat);
    }
}

/// Turns a shape into its board rows, column `i` of the box at bit `6 - i`.
pub fn calculate_bit_shape(arr: &[[bool; 4]; 4]) -> (res: [u16; 4])
    ensures
        forall|j: int| 0 <= j < 4 ==> #[trigger] res[j] == mirrored_row(*arr, j, 4),
{
    let mut res = [0u16; 4];
    let mut i: i32 = 0;
    while i < 4
        invariant
            0 <= i <= 4,
            forall|j: int| 0 <= j < 4 ==> #[trigger] res[j] == mirrored_row(*arr, j, i as nat),
        decreases 4 - i,
    {
        let mut j: i32 = 0;
        while j < 4
            invariant
                0 <= i < 4,
                0 <= j <= 4,
                forall|jj: int| 0 <= jj < j ==> #[trigger] res[jj] == mirrored_row(*arr, jj, (i + 1) as nat),
                forall|jj: int| j <= jj < 4 ==> #[trigger] res[jj] == mirrored_row(*arr, jj, i as nat),
            decreases 4 - j,
        {
            if arr[i as usize][j as usize] {
                let bit: u16 = 1u16 << ((10 - 1 - 3 - i) as u16);
                res[j as usize] = res[j as usize] | bit;
            }
            j += 1;
        }
        i += 1;
    }
    res
}

/// The piece types of the compact model.
#[derive(Clone, Copy, Debug, PartialEq, Eq, Structural)]
pub enum Piece {
    O,
    I,
    T,
    L,
    J,
    S,
    Z,
}

/// The piece numbered `i` (0 to 6).
pub open spec fn piece_of(i: int) -> Piece {
    if i == 0 {
        Piece::O
    } else if i == 1 {
        Piece::I
    } else if i == 2 {
        Piece::T
    } else if i == 3 {
        Piece::L
    } else if i == 4 {
        Piece::J
    } else if i == 5 {
        Piece::S
    } else {
        Piece::Z
    }
}

/// Number of distinct orientations of each piece.
pub open spec fn rotation_bound(t: int) -> int {
    if t == 0 {
        1
    } else if t == 1 || t == 5 || t == 6 {
        2
    } else {
        4
    }
}

/// How far a piece may shift left and right of `PIECE_COLUMN` with every
/// cell on the board.
pub open spec fn rusty_shift_bounds(t: int, r: nat) -> (int, int) {
    (3 + lead_empty_cols(t, r, 4), 3 + trail_empty_cols(t, r, 4))
}

/// The lowest filled row of column `i`, or -1.
pub open spec fn rusty_low(t: int, r: nat, i: int) -> int {
    first_below(t, r, i, 4)
}

/// The number of filled cells of column `i`, or -1 for an empty column.
pub open spec fn rusty_height(t: int, r: nat, i: int) -> int {
    if first_below(t, r, i, 4) == -1 {
        -1
    } else {
        count_below(t, r, i, 4)
    }
}

/// `hm` holds the lows and heights of type `t` in orientation `r`.
pub open spec fn rusty_height_map_matches(hm: ([i32; 4], [i32; 4]), t: int, r: nat) -> bool {
    forall|i: int|
        0 <= i < 4 ==> #[trigger] hm.0[i] == rusty_low(t, r, i) && hm.1[i] == rusty_height(t, r, i)
}

impl Piece {
    /// The number of the piece, 0 to 6.
    pub open spec fn index(self) -> int {
        match self {
            Piece::O => 0,
            Piece::I => 1,
            Piece::T => 2,
            Piece::L => 3,
            Piece::J => 4,
            Piece::S => 5,
            Piece::Z => 6,
        }
    }

    /// All pieces, in the order of their numbers.
    pub fn get_all_pieces() -> (ret: Vec<Piece>)
        ensures
            ret@.len() == 7,
            forall|i: int| 0 <= i < 7 ==> (#[trigger] ret@[i]).index() == i,
    {
        let mut ret: Vec<Piece> = Vec::new();
        let mut piece: i32 = 0;
        while piece < 7
            invariant
                0 <= piece <= 7,
                ret@.len() == piece,
                forall|k: int| 0 <= k < piece ==> (#[trigger] ret@[k]).index() == k,
            decreases 7 - piece,
        {
            match Piece::from_i32(piece) {
                Ok(p) => ret.push(p),
                Err(_) => {},
            }
            piece += 1;
        }
        ret
    }

    /// The shape of a piece in an orientation.
    pub fn info_shape(piece: &Self, rotation: i32) -> (shape: [[bool; 4]; 4])
        requires
            0 <= rotation < 4,
        ensures
            shape_matches(shape, piece.index(), rotation as nat),
    {
        crate::common::computed::shape_of(piece.to_i32() as usize, rotation as usize)
    }

    /// The board rows of a piece in an orientation, column `i` of its box at
    /// bit `6 - i`.
    pub fn info_bit_shape(piece: &Self, rotation: i32) -> (bits: [u16; 4])
        requires
            0 <= rotation < 4,
        ensures
            forall|j: int| 0 <= j < 4 ==> #[trigger] bits[j] == rusty_bit_row(piece.index(), rotation as nat, j, 4),
    {
        let shape = Piece::info_shape(piece, rotation);
        proof {
            assert forall|j: int| 0 <= j < 4 implies mirrored_row(shape, j, 4) == rusty_bit_row(piece.index(), rotation as nat, j, 4) by {
                lemma_mirrored_row(shape, piece.index(), rotation as nat, j, 4);
            }
        }
        calculate_bit_shape(&shape)
    }

    /// The size of a piece's box.
    pub fn info_size(piece: &Self) -> (size: i32)
        ensures
            size == spec_piece_size(piece.index()),
    {
        match piece {
            Piece::O => 2,
            Piece::I => 4,
            _ => 3,
        }
    }

    /// The number of distinct orientations of a piece.
    pub fn info_rotation_bounds(piece: &Self) -> (bound: i32)
        ensures
            bound == rotation_bound(piece.index()),
    {
        match piece {
            Piece::O => 1,
            Piece::I => 2,
            Piece::S => 2,
            Piece::Z => 2,
            _ => 4,
        }
    }

    /// How far a piece in an orientation may shift left and right.
    pub fn info_shift_bounds(piece: &Self, rotation: i32) -> (b: (i32, i32))
        requires
            0 <= rotation < 4,
        ensures
            b.0 == rusty_shift_bounds(piece.index(), rotation as nat).0,
            b.1 == rusty_shift_bounds(piece.index(), rotation as nat).1,
    {
        let shape = Piece::info_shape(piece, rotation);
        shift_bounds_of(piece.to_i32() as usize, rotation as usize, &shape)
    }

    /// The lows and heights of a piece's columns in an orientation.
    pub fn info_height_map(piece: &Self, rotation: i32) -> (hm: ([i32; 4], [i32; 4]))
        requires
            0 <= rotation < 4,
        ensures
            rusty_height_map_matches(hm, piece.index(), rotation as nat),
    {
        let shape = Piece::info_shape(piece, rotation);
        height_map_of(piece.to_i32() as usize, rotation as usize, &shape)
    }

    /// The piece numbered `val`.
    pub fn from_i32(val: i32) -> (res: Result<Self, ()>)
        ensures
            0 <= val < 7 ==> (res matches Ok(p) && p.index() == val),
            !(0 <= val < 7) ==> res is Err,
    {
        match val {
            0 => Ok(Piece::O),
            1 => Ok(Piece::I),
            2 => Ok(Piece::T),
            3 => Ok(Piece::L),
            4 => Ok(Piece::J),
            5 => Ok(Piece::S),
            6 => Ok(Piece::Z),
            _ => Err(()),
        }
    }

    /// The number of the piece.
    pub fn to_i32(&self) -> (val: i32)
        ensures
            val == self.index(),
    {
        match self {
            Piece::O => 0,
            Piece::I => 1,
            Piece::T => 2,
            Piece::L => 3,
            Piece::J => 4,
            Piece::S => 5,
            Piece::Z => 6,
        }
    }

    /// The letter of the piece.
    pub fn to_char(&self) -> (c: char)
        ensures
            c == crate::common::piece::piece_char(self.index()),
    {
        match self {
            Piece::O => 'O',
            Piece::I => 'I',
            Piece::T => 'T',
            Piece::L => 'L',
            Piece::J => 'J',
            Piece::S => 'S',
            Piece::Z => 'Z',
        }
    }
}

/// Column `x` of a shape holds a cell.
fn column_has_cell(shape: &[[bool; 4]; 4], x: usize, t: Ghost<int>, r: Ghost<nat>) -> (found: bool)
    requires
        x < 4,
        shape_matches(*shape, t@, r@),
    ensures
        found == !col_empty(t@, r@, x as int),
{
    let mut y: usize = 0;
    while y < 4
        invariant
            x < 4,
            y <= 4,
            shape_matches(*shape, t@, r@),
            forall|k: int| 0 <= k < y ==> !shape_cell(t@, r@, x as int, k),
        decreases 4 - y,
    {
        if shape[x][y] {
            proof {
                crate::common::computed::lemma_first_below_found(t@, r@, x as int, y as int, 4);
            }
            return true;
        }
        y += 1;
    }
    proof {
        lemma_first_below_props(t@, r@, x as int, 4);
        if first_below(t@, r@, x as int, 4) != -1 {
            assert(shape_cell(t@, r@, x as int, first_below(t@, r@, x as int, 4)));
        }
    }
    false
}

/// The shift bounds of a shape.
fn shift_bounds_of(t: usize, r: usize, shape: &[[bool; 4]; 4]) -> (b: (i32, i32))
    requires
        t < 7,
        r < 4,
        shape_matches(*shape, t as int, r as nat),
    ensures
        b.0 == rusty_shift_bounds(t as int, r as nat).0,
        b.1 == rusty_shift_bounds(t as int, r as nat).1,
{
    let ghost tt = t as int;
    let ghost rr = r as nat;
    let mut left: i32 = 3;
    let mut x: usize = 0;
    while x < 4 && !column_has_cell(shape, x, Ghost(tt), Ghost(rr))
        invariant
            x <= 4,
            shape_matches(*shape, tt, rr),
            lead_empty_cols(tt, rr, x as nat) == x,
            left == 3 + x,
        decreases 4 - x,
    {
        left += 1;
        x += 1;
    }
    proof {
        if x < 4 {
            assert(lead_empty_cols(tt, rr, (x + 1) as nat) == x);
            lemma_lead_cols_stable(tt, rr, (x + 1) as nat, 4);
        }
    }
    let mut right: i32 = 10 - 4 - 3;
    let mut k: usize = 0;
    while k < 4 && !column_has_cell(shape, 3 - k, Ghost(tt), Ghost(rr))
        invariant
            k <= 4,
            shape_matches(*shape, tt, rr),
            trail_empty_cols(tt, rr, k as nat) == k,
            right == 3 + k,
        decreases 4 - k,
    {
        right += 1;
        k += 1;
    }
    proof {
        if k < 4 {
            assert(trail_empty_cols(tt, rr, (k + 1) as nat) == k);
            lemma_trail_cols_stable(tt, rr, (k + 1) as nat, 4);
        }
    }
    (left, right)
}

/// The lows and heights of a shape's columns.
fn height_map_of(t: usize, r: usize, shape: &[[bool; 4]; 4]) -> (hm: ([i32; 4], [i32; 4]))
    requires
        t < 7,
        r < 4,
        shape_matches(*shape, t as int, r as nat),
    ensures
        rusty_height_map_matches(hm, t as int, r as nat),
{
    let ghost tt = t as int;
    let ghost rr = r as nat;
    let mut low = [-1i32; 4];
    let mut height = [-1i32; 4];
    let mut x: usize = 0;
    while x < 4
        invariant
            x <= 4,
            shape_matches(*shape, tt, rr),
            forall|i: int| 0 <= i < x ==> #[trigger] low[i] == rusty_low(tt, rr, i),
                forall|i: int| 0 <= i < x ==> #[trigger] height[i] == rusty_height(tt, rr, i),
            forall|i: int| x <= i < 4 ==> #[trigger] low[i] == -1,
            forall|i: int| x <= i < 4 ==> #[trigger] height[i] == -1,
        decreases 4 - x,
    {
        let mut found = false;
        let mut y: usize = 0;
        while y < 4
            invariant
                x < 4,
                y <= 4,
                shape_matches(*shape, tt, rr),
                forall|i: int| 0 <= i < x ==> #[trigger] low[i] == rusty_low(tt, rr, i),
                forall|i: int| 0 <= i < x ==> #[trigger] height[i] == rusty_height(tt, rr, i),
                forall|i: int| x < i < 4 ==> #[trigger] low[i] == -1,
                forall|i: int| x < i < 4 ==> #[trigger] height[i] == -1,
                found == (first_below(tt, rr, x as int, y as nat) != -1),
                low[x as int] == first_below(tt, rr, x as int, y as nat),
                height[x as int] == if found {
                    count_below(tt, rr, x as int, y as nat)
                } else {
                    -1
                },
                !found ==> count_below(tt, rr, x as int, y as nat) == 0,
                0 <= count_below(tt, rr, x as int, y as nat) <= y,
            decreases 4 - y,
        {
            if shape[x][y] {
                if !found {
                    low[x] = y as i32;
                }
                found = true;
                if height[x] == -1 {
                    height[x] += 1;
                }
                height[x] += 1;
            }
            y += 1;
        }
        x += 1;
    }
    (low, height)
}

/// Precomputed constants for every piece and orientation.
pub struct PieceInfo {
    pub piece_shapes: [[[[bool; 4]; 4]; 4]; 7],
    pub piece_bit_shapes: [[[u16; 4]; 4]; 7],
    pub piece_sizes: [i32; 7],
    pub piece_rotation_bounds: [i32; 7],
    pub piece_shift_bounds: [[(i32, i32); 4]; 7],
    pub piece_height_maps: [[([i32; 4], [i32; 4]); 4]; 7],
}

impl PieceInfo {
    /// Every table holds what the spec functions describe.
    pub open spec fn wf(&self) -> bool {
        &&& forall|p: int, r: int|
            0 <= p < 7 && 0 <= r < 4 ==> shape_matches(#[trigger] self.piece_shapes[p][r], p, r as nat)
        &&& forall|p: int, r: int, j: int|
            0 <= p < 7 && 0 <= r < 4 && 0 <= j < 4 ==> #[trigger] self.piece_bit_shapes[p][r][j]
                == rusty_bit_row(p, r as nat, j, 4)
        &&& forall|p: int| 0 <= p < 7 ==> #[trigger] self.piece_sizes[p] == spec_piece_size(p)
        &&& forall|p: int| 0 <= p < 7 ==> #[trigger] self.piece_rotation_bounds[p] == rotation_bound(p)
        &&& forall|p: int, r: int|
            0 <= p < 7 && 0 <= r < 4 ==> {
                let b = #[trigger] self.piece_shift_bounds[p][r];
                b.0 == rusty_shift_bounds(p, r as nat).0 && b.1 == rusty_shift_bounds(p, r as nat).1
            }
        &&& forall|p: int, r: int|
            0 <= p < 7 && 0 <= r < 4 ==> rusty_height_map_matches(
                #[trigger] self.piece_height_maps[p][r],
                p,
                r as nat,
            )
    }

    /// Computes every table.
    pub fn new() -> (info: Self)
        ensures
            info.wf(),
    {
        let piece_sizes: [i32; 7] = [2, 4, 3, 3, 3, 3, 3];
        let piece_rotation_bounds: [i32; 7] = [1i32, 2, 4, 4, 4, 2, 2];

        let mut piece_shapes = [[[[false; 4]; 4]; 4]; 7];
        let mut piece_bit_shapes = [[[0u16; 4]; 4]; 7];
        let mut piece: i32 = 0;
        while piece < 7
            invariant
                0 <= piece <= 7,
                piece_sizes@ == seq![2i32, 4, 3, 3, 3, 3, 3],
                forall|p: int, r: int|
                    0 <= p < piece && 0 <= r < 4 ==> shape_matches(#[trigger] piece_shapes[p][r], p, r as nat),
                forall|p: int, r: int, j: int|
                    0 <= p < piece && 0 <= r < 4 && 0 <= j < 4 ==> #[trigger] piece_bit_shapes[p][r][j]
                        == rusty_bit_row(p, r as nat, j, 4),
            decreases 7 - piece,
        {
            let size = piece_sizes[piece as usize];
            let offset: i32 = if size == 2 {
                1
            } else {
                0
            };
            let mut shape = crate::common::computed::shape_of(piece as usize, 0);
            let mut rotation: i32 = 0;
            while rotation < 4
                invariant
                    0 <= piece < 7,
                    0 <= rotation <= 4,
                    size == spec_piece_size(piece as int),
                    offset == if size == 2 { 1i32 } else { 0i32 },
                    shape_matches(shape, piece as int, rotation as nat),
                    forall|p: int, r: int|
                        (0 <= p < piece && 0 <= r < 4) || (p == piece && 0 <= r < rotation) ==> shape_matches(#[trigger] piece_shapes[p][r], p, r as nat),
                    forall|p: int, r: int, j: int|
                        ((0 <= p < piece && 0 <= r < 4) || (p == piece && 0 <= r < rotation)) && 0 <= j < 4 ==> #[trigger] piece_bit_shapes[p][r][j]
                            == rusty_bit_row(p, r as nat, j, 4),
                decreases 4 - rotation,
            {
                piece_shapes[piece as usize][rotation as usize] = shape;
                let bits = calculate_bit_shape(&shape);
                proof {
                    assert forall|j: int| 0 <= j < 4 implies mirrored_row(shape, j, 4) == rusty_bit_row(piece as int, rotation as nat, j, 4) by {
                        lemma_mirrored_row(shape, piece as int, rotation as nat, j, 4);
                    }
                }
                piece_bit_shapes[piece as usize][rotation as usize] = bits;
                let ghost prev = shape;
                rotate_array(&mut shape, size, offset);
                proof {
                    lemma_turned_shape(prev, shape, piece as int, rotation as nat);
                }
                rotation += 1;
            }
            piece += 1;
        }

        let mut piece_height_maps = [[([0i32; 4], [0i32; 4]); 4]; 7];
        let mut piece_shift_bounds = [[(0i32, 0i32); 4]; 7];
        let mut piece: i32 = 0;
        while piece < 7
            invariant
                0 <= piece <= 7,
                forall|p: int, r: int|
                    0 <= p < 7 && 0 <= r < 4 ==> shape_matches(#[trigger] piece_shapes[p][r], p, r as nat),
                forall|p: int, r: int|
                    0 <= p < piece && 0 <= r < 4 ==> rusty_height_map_matches(#[trigger] piece_height_maps[p][r], p, r as nat),
                forall|p: int, r: int|
                    0 <= p < piece && 0 <= r < 4 ==> {
                        let b = #[trigger] piece_shift_bounds[p][r];
                        b.0 == rusty_shift_bounds(p, r as nat).0 && b.1 == rusty_shift_bounds(p, r as nat).1
                    },
            decreases 7 - piece,
        {
            let mut rotation: i32 = 0;
            while rotation < 4
                invariant
                    0 <= piece < 7,
                    0 <= rotation <= 4,
                    forall|p: int, r: int|
                        0 <= p < 7 && 0 <= r < 4 ==> shape_matches(#[trigger] piece_shapes[p][r], p, r as nat),
                    forall|p: int, r: int|
                        (0 <= p < piece && 0 <= r < 4) || (p == piece && 0 <= r < rotation) ==> rusty_height_map_matches(#[trigger] piece_height_maps[p][r], p, r as nat),
                    forall|p: int, r: int|
                        (0 <= p < piece && 0 <= r < 4) || (p == piece && 0 <= r < rotation) ==> {
                            let b = #[trigger] piece_shift_bounds[p][r];
                            b.0 == rusty_shift_bounds(p, r as nat).0 && b.1 == rusty_shift_bounds(p, r as nat).1
                        },
                decreases 4 - rotation,
            {
                let shape = piece_shapes[piece as usize][rotation as usize];
                piece_height_maps[piece as usize][rotation as usize] = height_map_of(piece as usize, rotation as usize, &shape);
                piece_shift_bounds[piece as usize][rotation as usize] = shift_bounds_of(piece as usize, rotation as usize, &shape);
                rotation += 1;
            }
            piece += 1;
        }
        assert(piece_rotation_bounds@ == seq![1i32, 2, 4, 4, 4, 2, 2]);
        PieceInfo {
            piece_shapes,
            piece_bit_shapes,
            piece_height_maps,
            piece_shift_bounds,
            piece_rotation_bounds,
            piece_sizes,
        }
    }
}

/// Turning a shape in place gives the shape of the next orientation.
proof fn lemma_turned_shape(prev: [[bool; 4]; 4], cur: [[bool; 4]; 4], t: int, r: nat)
    requires
        0 <= t < 7,
        shape_matches(prev, t, r),
        t != 0 ==> forall|a: int, b: int|
            0 <= a < 4 && 0 <= b < 4 ==> #[trigger] cur[a][b] == if a < spec_piece_size(t) && b < spec_piece_size(t) {
                prev[spec_piece_size(t) - 1 - b][a]
            } else {
                prev[a][b]
            },
        t == 0 ==> small_box_turned(prev, cur),
    ensures
        shape_matches(cur, t, r + 1),
{
    let s = spec_piece_size(t);
    assert forall|x: int, y: int| 0 <= x < 4 && 0 <= y < 4 implies cur[x][y] == shape_cell(t, r + 1, x, y) by {
        if t != 0 {
            if x < s && y < s {
                assert(prev[s - 1 - y][x] == shape_cell(t, r, s - 1 - y, x));
            } else {
                assert(prev[x][y] == shape_cell(t, r, x, y));
                if r > 0 {
                    assert(!shape_cell(t, r, x, y));
                } else {
                    assert(!base_cell(t, x, y));
                }
            }
        } else {
            assert(shape_cell(t, r + 1, x, y) == base_cell(t, x, y));
            assert(prev[2][1] == shape_cell(t, r, 2, 1));
            assert(prev[1][1] == shape_cell(t, r, 1, 1));
            assert(prev[1][2] == shape_cell(t, r, 1, 2));
            assert(prev[x][y] == shape_cell(t, r, x, y));
        }
    }
}

} // verus!

//! Piece types, and a piece that moves on a board.
use vstd::prelude::*;
use crate::common::board::{Board, collides, col_height, cell, lemma_height_props, lemma_metadata_range};
use crate::bits::{has_bit, lemma_bit_and, lemma_bits_equal, lemma_zero_has_no_bit};
use crate::common::board::{empty_rows};
use crate::common::computed::{
    col_empty,
    first_below,
    lead_empty_rows,
    lemma_bit_row_bit,
    lemma_first_below_props,
    lemma_first_below_found,
    lemma_lead_cols_le,
    lemma_trail_cols_le,
    lemma_lead_rows_le,
    lemma_cell_row_nonempty,
    lemma_row_nonempty_cell,
    lemma_lead_rows_filled,
    shape_cell,
    shape_matches,
    bit_row,
    bit_shape_matches,
    height_entry,
    height_map_matches,
    location_bounds,
    shift_bounds,
    spawn_location,
    kick_table,
    kicks_match,
    shape_of,
    bit_shape_of,
    height_map_of,
    location_bounds_of,
    kick_table_of,
    lemma_location_bounds_range,
    lemma_shape_extent,
};
use crate::common::misc::{GenericErr, text_with_number, int_decimal};

verus! {

/// Result of a move of a piece.
pub enum PieceMoveRes {
    Success,
    Failed,
}

/// The seven piece types.
#[derive(Clone, Copy, Debug, PartialEq, Eq, Hash, Structural)]
pub enum PieceType {
    O,
    I,
    T,
    L,
    J,
    S,
    Z,
}

/// The piece type numbered `i` (0 to 6).
pub open spec fn piece_type_of(i: int) -> PieceType {
    if i == 0 {
        PieceType::O
    } else if i == 1 {
        PieceType::I
    } else if i == 2 {
        PieceType::T
    } else if i == 3 {
        PieceType::L
    } else if i == 4 {
        PieceType::J
    } else if i == 5 {
        PieceType::S
    } else {
        PieceType::Z
    }
}

/// The letter that names each piece type.
pub open spec fn piece_char(i: int) -> char {
    if i == 0 {
        'O'
    } else if i == 1 {
        'I'
    } else if i == 2 {
        'T'
    } else if i == 3 {
        'L'
    } else if i == 4 {
        'J'
    } else if i == 5 {
        'S'
    } else {
        'Z'
    }
}

impl PieceType {
    /// The number of the piece type, 0 to 6.
    pub open spec fn index(self) -> int {
        match self {
            PieceType::O => 0,
            PieceType::I => 1,
            PieceType::T => 2,
            PieceType::L => 3,
            PieceType::J => 4,
            PieceType::S => 5,
            PieceType::Z => 6,
        }
    }

    /// All piece types, in the order of their numbers.
    pub fn iter_types() -> (pieces: Vec<PieceType>)
        ensures
            pieces@.len() == 7,
            forall|i: int| 0 <= i < 7 ==> (#[trigger] pieces@[i]).index() == i,
    {
        let mut pieces: Vec<PieceType> = Vec::new();
        let mut i: i32 = 0;
        while i < 7
            invariant
                0 <= i <= 7,
                pieces@.len() == i,
                forall|k: int| 0 <= k < i ==> (#[trigger] pieces@[k]).index() == k,
            decreases 7 - i,
        {
            match PieceType::from_i32(i) {
                Ok(p) => pieces.push(p),
                Err(_) => {},
            }
            i += 1;
        }
        pieces
    }

    /// The piece type numbered `val`, or an error for a number outside 0 to 6.
    pub fn from_i32(val: i32) -> (res: Result<Self, GenericErr>)
        ensures
            0 <= val < 7 ==> (res matches Ok(p) && p.index() == val),
            !(0 <= val < 7) ==> (res matches Err(e) && e.0@ == "Invalid PieceType #"@
                + int_decimal(val as int)),
    {
        match val {
            0 => Ok(PieceType::O),
            1 => Ok(PieceType::I),
            2 => Ok(PieceType::T),
            3 => Ok(PieceType::L),
            4 => Ok(PieceType::J),
            5 => Ok(PieceType::S),
            6 => Ok(PieceType::Z),
            _ => Err(GenericErr::new(text_with_number("Invalid PieceType #", val))),
        }
    }

    /// The number of the piece type.
    pub fn to_i32(&self) -> (val: i32)
        ensures
            val == self.index(),
    {
        match self {
            PieceType::O => 0,
            PieceType::I => 1,
            PieceType::T => 2,
            PieceType::L => 3,
            PieceType::J => 4,
            PieceType::S => 5,
            PieceType::Z => 6,
        }
    }

    /// The letter of the piece type.
    pub fn to_char(&self) -> (c: char)
        ensures
            c == piece_char(self.index()),
    {
        match self {
            PieceType::O => 'O',
            PieceType::I => 'I',
            PieceType::T => 'T',
            PieceType::L => 'L',
            PieceType::J => 'J',
            PieceType::S => 'S',
            PieceType::Z => 'Z',
        }
    }

    /// The letter of the piece type, as text.
    pub(crate) fn letter(&self) -> (s: &'static str)
        ensures
            s@ == seq![piece_char(self.index())],
    {
        proof {
            reveal_strlit("O");
            reveal_strlit("I");
            reveal_strlit("T");
            reveal_strlit("L");
            reveal_strlit("J");
            reveal_strlit("S");
            reveal_strlit("Z");
        }
        match self {
            PieceType::O => "O",
            PieceType::I => "I",
            PieceType::T => "T",
            PieceType::L => "L",
            PieceType::J => "J",
            PieceType::S => "S",
            PieceType::Z => "Z",
        }
    }
}

/// A piece of a given type, in a given orientation, whose box's lower left
/// corner stands at `location`.
#[derive(Clone, Copy, Debug, Eq)]
pub struct Piece {
    pub piece_type: PieceType,
    pub rotation: i8,
    pub location: (i8, i8),
}

// Only the type is hashed, as only the type is compared.
impl core::hash::Hash for Piece {
    fn hash<H: core::hash::Hasher>(&self, state: &mut H) {
        (self.piece_type.to_i32() as u64).hash(state);
    }
}

/// A shape of type `t` in orientation `r` at `(x, y)` lies within its
/// location bounds and overlaps no filled cell of `m`.
pub open spec fn fits(m: Seq<u16>, t: int, r: nat, x: int, y: int) -> bool {
    let b = location_bounds(t, r);
    &&& b.0 <= x <= b.1
    &&& b.2 <= y <= b.3
    &&& !collides(m, t, r, x, y)
}

impl Piece {
    /// The orientation is one of the four and the box lies within the
    /// location bounds of that orientation.
    pub open spec fn wf(&self) -> bool {
        let b = location_bounds(self.piece_type.index(), self.rotation as nat);
        &&& 0 <= self.rotation < 4
        &&& b.0 <= self.location.0 <= b.1
        &&& b.2 <= self.location.1 <= b.3
    }

    /// The spawn location of a piece type.
    pub fn info_spawn_location(piece_type: &PieceType) -> (loc: (i8, i8))
        ensures
            loc.0 == spawn_location(piece_type.index()).0,
            loc.1 == spawn_location(piece_type.index()).1,
    {
        match piece_type {
            PieceType::I => (3, 18),
            _ => (3, 19),
        }
    }

    /// The shape of a piece type in an orientation.
    pub fn info_shape(piece_type: &PieceType, rotation: i8) -> (shape: [[bool; 4]; 4])
        requires
            0 <= rotation < 4,
        ensures
            shape_matches(shape, piece_type.index(), rotation as nat),
    {
        shape_of(piece_type.to_i32() as usize, rotation as usize)
    }

    /// The board rows of a piece type in an orientation, its box's left
    /// edge at column `x_pos`.
    pub fn info_bit_shape(piece_type: &PieceType, rotation: i8, x_pos: i8) -> (bits: [u16; 4])
        requires
            0 <= rotation < 4,
            -2 <= x_pos <= 8,
        ensures
            bit_shape_matches(bits, piece_type.index(), rotation as nat, x_pos as int),
    {
        let t = piece_type.to_i32() as usize;
        let shape = shape_of(t, rotation as usize);
        bit_shape_of(t, rotation as usize, shape, x_pos)
    }

    /// The height map of a piece type in an orientation.
    pub fn info_height_map(piece_type: &PieceType, rotation: i8) -> (hm: [(i8, i8); 4])
        requires
            0 <= rotation < 4,
        ensures
            height_map_matches(hm, piece_type.index(), rotation as nat),
    {
        let t = piece_type.to_i32() as usize;
        let shape = shape_of(t, rotation as usize);
        height_map_of(t, rotation as usize, shape)
    }

    /// How far a piece type in an orientation may shift left and right.
    pub fn info_shift_bounds(piece_type: &PieceType, rotation: i8) -> (b: (i8, i8))
        requires
            0 <= rotation < 4,
        ensures
            b.0 == shift_bounds(piece_type.index(), rotation as nat).0,
            b.1 == shift_bounds(piece_type.index(), rotation as nat).1,
    {
        let lb = Piece::info_location_bounds(piece_type, rotation);
        proof {
            lemma_location_bounds_range(piece_type.index(), rotation as nat);
        }
        (3 - lb.0, lb.1 - 3)
    }

    /// The location bounds of a piece type in an orientation.
    pub fn info_location_bounds(piece_type: &PieceType, rotation: i8) -> (b: (i8, i8, i8, i8))
        requires
            0 <= rotation < 4,
        ensures
            b.0 == location_bounds(piece_type.index(), rotation as nat).0,
            b.1 == location_bounds(piece_type.index(), rotation as nat).1,
            b.2 == location_bounds(piece_type.index(), rotation as nat).2,
            b.3 == location_bounds(piece_type.index(), rotation as nat).3,
    {
        let t = piece_type.to_i32() as usize;
        let r = rotation as usize;
        let shape = shape_of(t, r);
        let hm = height_map_of(t, r, shape);
        let center = bit_shape_of(t, r, shape, 3);
        location_bounds_of(t, r, hm, center)
    }

    /// The wall kicks of a piece type from one orientation to another.
    pub fn info_kick_table(piece_type: &PieceType, from: i8, to: i8) -> (kicks: Vec<(i8, i8)>)
        requires
            0 <= from < 4,
            0 <= to < 4,
        ensures
            kicks_match(kicks@, kick_table(piece_type.index(), from as int, to as int)),
    {
        kick_table_of(piece_type.to_i32() as usize, from as usize, to as usize)
    }

    /// The spawn location of this piece's type.
    pub fn get_spawn_location(&self) -> (loc: (i8, i8))
        ensures
            loc.0 == spawn_location(self.piece_type.index()).0,
            loc.1 == spawn_location(self.piece_type.index()).1,
    {
        Piece::info_spawn_location(&self.piece_type)
    }

    /// The shape of this piece, in the given orientation or its own.
    pub fn get_shape(&self, rotation: Option<i8>) -> (shape: [[bool; 4]; 4])
        requires
            0 <= rotation.unwrap_or(self.rotation) < 4,
        ensures
            shape_matches(shape, self.piece_type.index(), rotation.unwrap_or(self.rotation) as nat),
    {
        Piece::info_shape(&self.piece_type, rotation.unwrap_or(self.rotation))
    }

    /// The board rows of this piece, in the given orientation or its own, at
    /// the given column or its own.
    pub fn get_bit_shape(&self, rotation: Option<i8>, x_pos: Option<i8>) -> (bits: [u16; 4])
        requires
            0 <= rotation.unwrap_or(self.rotation) < 4,
            -2 <= x_pos.unwrap_or(self.location.0) <= 8 || (rotation is None && x_pos is None
                && self.wf()),
        ensures
            bit_shape_matches(
                bits,
                self.piece_type.index(),
                rotation.unwrap_or(self.rotation) as nat,
                x_pos.unwrap_or(self.location.0) as int,
            ),
    {
        proof {
            lemma_shape_extent(self.piece_type.index(), rotation.unwrap_or(self.rotation) as nat);
        }
        Piece::info_bit_shape(
            &self.piece_type,
            rotation.unwrap_or(self.rotation),
            x_pos.unwrap_or(self.location.0),
        )
    }

    /// The height map of this piece, in the given orientation or its own.
    pub fn get_height_map(&self, rotation: Option<i8>) -> (hm: [(i8, i8); 4])
        requires
            0 <= rotation.unwrap_or(self.rotation) < 4,
        ensures
            height_map_matches(hm, self.piece_type.index(), rotation.unwrap_or(self.rotation) as nat),
    {
        Piece::info_height_map(&self.piece_type, rotation.unwrap_or(self.rotation))
    }

    /// How far this piece may shift, in the given orientation or its own.
    pub fn get_shift_bounds(&self, rotation: Option<i8>) -> (b: (i8, i8))
        requires
            0 <= rotation.unwrap_or(self.rotation) < 4,
        ensures
            b.0 == shift_bounds(self.piece_type.index(), rotation.unwrap_or(self.rotation) as nat).0,
            b.1 == shift_bounds(self.piece_type.index(), rotation.unwrap_or(self.rotation) as nat).1,
    {
        Piece::info_shift_bounds(&self.piece_type, rotation.unwrap_or(self.rotation))
    }

    /// The location bounds of this piece, in the given orientation or its own.
    pub fn get_location_bounds(&self, rotation: Option<i8>) -> (b: (i8, i8, i8, i8))
        requires
            0 <= rotation.unwrap_or(self.rotation) < 4,
        ensures
            b.0 == location_bounds(self.piece_type.index(), rotation.unwrap_or(self.rotation) as nat).0,
            b.1 == location_bounds(self.piece_type.index(), rotation.unwrap_or(self.rotation) as nat).1,
            b.2 == location_bounds(self.piece_type.index(), rotation.unwrap_or(self.rotation) as nat).2,
            b.3 == location_bounds(self.piece_type.index(), rotation.unwrap_or(self.rotation) as nat).3,
    {
        Piece::info_location_bounds(&self.piece_type, rotation.unwrap_or(self.rotation))
    }

    /// The wall kicks of this piece from the given orientation (or its own)
    /// to orientation `to`.
    pub fn get_kick_table(&self, from: Option<i8>, to: i8) -> (kicks: Vec<(i8, i8)>)
        requires
            0 <= from.unwrap_or(self.rotation) < 4,
            0 <= to < 4,
        ensures
            kicks_match(
                kicks@,
                kick_table(self.piece_type.index(), from.unwrap_or(self.rotation) as int, to as int),
            ),
    {
        Piece::info_kick_table(&self.piece_type, from.unwrap_or(self.rotation), to)
    }

    /// The letter of this piece's type.
    pub fn to_string(&self) -> (s: String)
        ensures
            s@ == seq![piece_char(self.piece_type.index())],
    {
        String::from_str(self.piece_type.letter())
    }

    /// A piece of the given type at its spawn location, unrotated.
    pub fn new(piece_type: &PieceType) -> (piece: Self)
        ensures
            piece.piece_type == *piece_type,
            piece.rotation == 0,
            piece.location.0 == spawn_location(piece_type.index()).0,
            piece.location.1 == spawn_location(piece_type.index()).1,
            piece.wf(),
    {
        let location = Piece::info_spawn_location(piece_type);
        proof {
            lemma_spawn_in_bounds(piece_type.index());
        }
        Piece { piece_type: *piece_type, rotation: 0, location }
    }

    /// Moves the piece back to its spawn location and orientation.
    pub fn reset(&mut self)
        ensures
            final(self).piece_type == old(self).piece_type,
            final(self).rotation == 0,
            final(self).location.0 == spawn_location(old(self).piece_type.index()).0,
            final(self).location.1 == spawn_location(old(self).piece_type.index()).1,
            final(self).wf(),
    {
        self.rotation = 0;
        self.location = self.get_spawn_location();
        proof {
            lemma_spawn_in_bounds(self.piece_type.index());
        }
    }
}

/// The outcome of moving `old` by `(dx, dy)` on a board with matrix `m`:
/// the move happens exactly when the piece fits at the new location.
pub open spec fn shift_post(m: Seq<u16>, old: Piece, new: Piece, res: PieceMoveRes, dx: int, dy: int) -> bool {
    let t = old.piece_type.index();
    let nx = old.location.0 + dx;
    let ny = old.location.1 + dy;
    &&& new.piece_type == old.piece_type
    &&& new.rotation == old.rotation
    &&& new.wf()
    &&& if fits(m, t, old.rotation as nat, nx, ny) {
        res is Success && new.location.0 == nx && new.location.1 == ny
    } else {
        res is Failed && new.location == old.location
    }
}

/// The outcome of turning `old` by `amount` quarter turns on a board with
/// matrix `m`: the first wall kick that fits is taken, and the piece stays
/// put when none does.
pub open spec fn rotate_post(m: Seq<u16>, old: Piece, new: Piece, res: PieceMoveRes, amount: int) -> bool {
    let t = old.piece_type.index();
    let new_rot = (old.rotation + amount) % 4;
    let x = old.location.0 as int;
    let y = old.location.1 as int;
    let kicks = kick_table(t, old.rotation as int, new_rot);
    &&& new.piece_type == old.piece_type
    &&& new.wf()
    &&& match first_fit(m, t, new_rot as nat, x, y, kicks, 0) {
        Some(k) => res is Success && new.rotation == new_rot && new.location.0 == x + kicks[k].0
            && new.location.1 == y + kicks[k].1,
        None => res is Failed && new.rotation == old.rotation && new.location == old.location,
    }
}

/// No shape collides with an empty matrix.
proof fn lemma_no_collision_on_empty(m: Seq<u16>, t: int, r: nat, x: int, y: int)
    requires
        forall|j: int| 0 <= j < m.len() ==> m[j] == 0,
        m.len() == 24,
    ensures
        !collides(m, t, r, x, y),
{
    assert forall|j: int| 0 <= j < 4 && 0 <= y + j < 24 implies (#[trigger] (bit_row(t, r, x, j) & m[y + j])) == 0 by {
        let b = bit_row(t, r, x, j);
        assert(m[y + j] == 0);
        assert(b & 0u16 == 0u16) by (bit_vector);
    }
}

/// On an empty board, a piece whose box lies within the bounds of its own
/// orientation and of the next one turns right without a kick, and turning
/// it left then gives back the piece as it was.
pub proof fn lemma_rotate_left_undoes_right(
    m: Seq<u16>,
    p0: Piece,
    p1: Piece,
    p2: Piece,
    res1: PieceMoveRes,
    res2: PieceMoveRes,
)
    requires
        m.len() == 24,
        forall|j: int| 0 <= j < m.len() ==> m[j] == 0,
        p0.wf(),
        ({
            let b = location_bounds(p0.piece_type.index(), ((p0.rotation + 1) % 4) as nat);
            &&& b.0 <= p0.location.0 <= b.1
            &&& b.2 <= p0.location.1 <= b.3
        }),
        rotate_post(m, p0, p1, res1, 1),
        rotate_post(m, p1, p2, res2, 3),
    ensures
        res1 is Success,
        res2 is Success,
        p1.rotation == (p0.rotation + 1) % 4,
        p1.location == p0.location,
        p2 == p0,
{
    let t = p0.piece_type.index();
    let r1 = (p0.rotation + 1) % 4;
    let x = p0.location.0 as int;
    let y = p0.location.1 as int;
    let k1 = kick_table(t, p0.rotation as int, r1);
    assert(k1[0] == (0int, 0int));
    lemma_no_collision_on_empty(m, t, r1 as nat, x, y);
    assert(first_fit(m, t, r1 as nat, x, y, k1, 0) == Some(0int));
    assert(p1.rotation == r1 && p1.location.0 == x && p1.location.1 == y);
    let r2 = (p1.rotation + 3) % 4;
    assert(r2 == p0.rotation);
    let k2 = kick_table(t, p1.rotation as int, r2);
    assert(k2[0] == (0int, 0int));
    lemma_no_collision_on_empty(m, t, r2 as nat, x, y);
    assert(first_fit(m, t, r2 as nat, x, y, k2, 0) == Some(0int));
    assert(p2.location == p0.location);
}

/// The outcome of a soft drop of `old` on a board with matrix `m`: the piece
/// comes to rest straight below.  When it started above the stack the move
/// reports whether it moved; otherwise it reports a failure.
pub open spec fn drop_post(m: Seq<u16>, old: Piece, new: Piece, res: PieceMoveRes) -> bool {
    let t = old.piece_type.index();
    let r = old.rotation as nat;
    let x = old.location.0 as int;
    let y = old.location.1 as int;
    &&& new.piece_type == old.piece_type
    &&& new.rotation == old.rotation
    &&& new.location.0 == old.location.0
    &&& new.location.1 == drop_y(m, t, r, x, y)
    &&& new.wf()
    &&& if above_stack(m, t, r, x, y) {
        res is Success <==> drop_y(m, t, r, x, y) != y
    } else {
        res is Failed
    }
}

/// The row `y` at which a shape dropped straight down from `y` comes to
/// rest: the lowest row reachable by single steps down, each of which fits.
pub open spec fn drop_y(m: Seq<u16>, t: int, r: nat, x: int, y: int) -> int
    decreases y + 5,
{
    if y - 1 >= -4 && fits(m, t, r, x, y - 1) {
        drop_y(m, t, r, x, y - 1)
    } else {
        y
    }
}

/// Every filled column of the shape starts at or above the height of the
/// board column under it.
pub open spec fn above_stack(m: Seq<u16>, t: int, r: nat, x: int, y: int) -> bool {
    forall|i: int|
        0 <= i < 4 && !col_empty(t, r, i) ==> y + (#[trigger] height_entry(t, r, i)).0
            >= col_height(m, x + i)
}

/// The first of `kicks`, from index `k` on, whose offset lets the shape
/// fit, or `None`.
pub open spec fn first_fit(
    m: Seq<u16>,
    t: int,
    r: nat,
    x: int,
    y: int,
    kicks: Seq<(int, int)>,
    k: nat,
) -> Option<int>
    decreases kicks.len() - k,
{
    if k >= kicks.len() {
        None
    } else if fits(m, t, r, x + kicks[k as int].0, y + kicks[k as int].1) {
        Some(k as int)
    } else {
        first_fit(m, t, r, x, y, kicks, k + 1)
    }
}

proof fn lemma_first_fit_skip(
    m: Seq<u16>,
    t: int,
    r: nat,
    x: int,
    y: int,
    kicks: Seq<(int, int)>,
    k: nat,
)
    requires
        k <= kicks.len(),
        forall|i: int|
            0 <= i < k ==> !fits(m, t, r, x + #[trigger] kicks[i].0, y + kicks[i].1),
    ensures
        first_fit(m, t, r, x, y, kicks, 0) == first_fit(m, t, r, x, y, kicks, k),
    decreases k,
{
    if k > 0 {
        lemma_first_fit_skip(m, t, r, x, y, kicks, (k - 1) as nat);
    }
}

/// A filled column of a shape inside its bounds lies on the board.
proof fn lemma_column_on_board(t: int, r: nat, x: int, i: int)
    requires
        0 <= t < 7,
        r < 4,
        0 <= i < 4,
        !col_empty(t, r, i),
        location_bounds(t, r).0 <= x <= location_bounds(t, r).1,
    ensures
        0 <= x + i < 10,
{
    lemma_lead_cols_le(t, r, i, 4);
    lemma_trail_cols_le(t, r, i, 4);
}

/// A shape whose filled columns all start at or above the board's column
/// heights fits, as long as it is within its bounds sideways and not above
/// the top.
proof fn lemma_fits_above(m: Seq<u16>, t: int, r: nat, x: int, y: int)
    requires
        0 <= t < 7,
        r < 4,
        m.len() == 24,
        location_bounds(t, r).0 <= x <= location_bounds(t, r).1,
        y <= location_bounds(t, r).3,
        above_stack(m, t, r, x, y),
    ensures
        fits(m, t, r, x, y),
{
    lemma_shape_extent(t, r);
    let lr = lead_empty_rows(t, r, 4);
    lemma_lead_rows_filled(t, r, 4);
    let i0 = lemma_row_nonempty_cell(t, r, lr);
    lemma_first_below_found(t, r, i0, lr, 4);
    lemma_column_on_board(t, r, x, i0);
    lemma_metadata_range(m, x + i0);
    assert(!col_empty(t, r, i0));
    assert(y + height_entry(t, r, i0).0 >= col_height(m, x + i0));
    assert forall|j: int| 0 <= j < 4 && 0 <= y + j < 24 implies #[trigger] (bit_row(t, r, x, j)
        & m[y + j]) == 0 by {
        let a = bit_row(t, r, x, j);
        let b = m[y + j];
        assert forall|c: int| 0 <= c < 16 implies has_bit(a & b, c) == has_bit(0u16, c) by {
            lemma_bit_and(a, b, c as u16);
            lemma_zero_has_no_bit(c as u16);
            lemma_bit_row_bit(t, r, x, j, 4, c);
            if has_bit(a, c) {
                let i = c - x;
                lemma_first_below_found(t, r, i, j, 4);
                lemma_height_props(m, c, 24);
                assert(!col_empty(t, r, i));
                assert(y + height_entry(t, r, i).0 >= col_height(m, x + i));
                assert(!cell(m, c, y + j));
            }
        }
        lemma_bits_equal(a & b, 0u16);
    }
}

/// A shape one of whose filled columns starts right where the board column
/// under it ends does not fit.
proof fn lemma_blocked(m: Seq<u16>, t: int, r: nat, x: int, y: int, i: int)
    requires
        0 <= t < 7,
        r < 4,
        m.len() == 24,
        0 <= i < 4,
        !col_empty(t, r, i),
        location_bounds(t, r).0 <= x <= location_bounds(t, r).1,
        y + height_entry(t, r, i).0 == col_height(m, x + i) - 1,
    ensures
        !fits(m, t, r, x, y),
{
    lemma_first_below_props(t, r, i, 4);
    let low = first_below(t, r, i, 4);
    lemma_column_on_board(t, r, x, i);
    let c = x + i;
    let h = col_height(m, c);
    lemma_height_props(m, c, 24);
    lemma_cell_row_nonempty(t, r, i, low);
    lemma_lead_rows_le(t, r, low, 4);
    if h > 0 {
        let a = bit_row(t, r, x, low);
        let b = m[y + low];
        lemma_bit_row_bit(t, r, x, low, 4, c);
        lemma_bit_and(a, b, c as u16);
        lemma_zero_has_no_bit(c as u16);
        assert((a & b) != 0);
        assert(collides(m, t, r, x, y));
    }
}

/// From a position above the stack, the shape drops to the highest row at
/// which one of its columns meets the stack.
proof fn lemma_drop_fast(m: Seq<u16>, t: int, r: nat, x: int, y: int, y0: int, i: int)
    requires
        0 <= t < 7,
        r < 4,
        m.len() == 24,
        y0 <= y <= location_bounds(t, r).3,
        location_bounds(t, r).0 <= x <= location_bounds(t, r).1,
        above_stack(m, t, r, x, y0),
        0 <= i < 4,
        !col_empty(t, r, i),
        y0 + height_entry(t, r, i).0 == col_height(m, x + i),
    ensures
        drop_y(m, t, r, x, y) == y0,
    decreases y - y0,
{
    if y == y0 {
        lemma_blocked(m, t, r, x, y - 1, i);
    } else {
        assert(above_stack(m, t, r, x, y - 1)) by {
            assert forall|k: int| 0 <= k < 4 && !col_empty(t, r, k) implies y - 1 + height_entry(
                t,
                r,
                k,
            ).0 >= col_height(m, x + k) by {
                assert(y0 + height_entry(t, r, k).0 >= col_height(m, x + k));
            }
        }
        lemma_fits_above(m, t, r, x, y - 1);
        lemma_location_bounds_range(t, r);
        lemma_drop_fast(m, t, r, x, y - 1, y0, i);
    }
}

impl Piece {
    /// Turns the piece by `amount` quarter turns clockwise, trying the wall
    /// kicks in order; the piece stays put when none of them fits.
    #[verifier::rlimit(30)]
    pub fn rotate(&mut self, amount: i8, board: &Board) -> (res: PieceMoveRes)
        requires
            old(self).wf(),
            0 <= old(self).rotation + amount <= 127,
        ensures
            rotate_post(board.matrix@, *old(self), *final(self), res, amount as int),
    {
        let ghost t = self.piece_type.index();
        let ghost m = board.matrix@;
        let (old_x, old_y) = self.location;
        let old_rot = self.rotation;
        let new_rot = (self.rotation + amount) % 4;
        self.rotation = new_rot;

        let kick_table = self.get_kick_table(Some(old_rot), new_rot);
        let ghost kicks = self::kick_table(t, old_rot as int, new_rot as int);
        let (b_left, b_right, b_bottom, b_top) = self.get_location_bounds(None);
        proof {
            lemma_location_bounds_range(t, old_rot as nat);
        }
        let mut k: usize = 0;
        while k < kick_table.len()
            invariant
                0 <= t < 7,
                0 <= new_rot < 4,
                t == self.piece_type.index(),
                self.piece_type == old(self).piece_type,
                old_x == old(self).location.0,
                old_y == old(self).location.1,
                old_rot == old(self).rotation,
                new_rot == (old_rot + amount) % 4,
                m == board.matrix@,
                self.rotation == new_rot,
                -4 <= old_x <= 10,
                -4 <= old_y <= 24,
                kicks == self::kick_table(t, old_rot as int, new_rot as int),
                kicks_match(kick_table@, kicks),
                b_left == location_bounds(t, new_rot as nat).0,
                b_right == location_bounds(t, new_rot as nat).1,
                b_bottom == location_bounds(t, new_rot as nat).2,
                b_top == location_bounds(t, new_rot as nat).3,
                k <= kick_table@.len(),
                forall|i: int|
                    0 <= i < k ==> !fits(
                        m,
                        t,
                        new_rot as nat,
                        old_x + #[trigger] kicks[i].0,
                        old_y + kicks[i].1,
                    ),
            decreases kick_table@.len() - k,
        {
            let (d_x, d_y) = kick_table[k];
            assert(-2 <= d_x <= 2 && -2 <= d_y <= 2);
            proof {
                crate::common::computed::lemma_shape_extent(self.piece_type.index(), self.rotation as nat);
            }
            let new_x = old_x + d_x;
            let new_y = old_y + d_y;
            self.location = (new_x, new_y);

            if !(new_x < b_left || new_x > b_right || new_y < b_bottom || new_y > b_top)
                && !board.intersects_with(&self)
            {
                proof {
                    lemma_first_fit_skip(m, t, new_rot as nat, old_x as int, old_y as int, kicks, k as nat);
                    assert(fits(m, t, new_rot as nat, old_x + kicks[k as int].0, old_y + kicks[k as int].1));
                    assert(first_fit(m, t, new_rot as nat, old_x as int, old_y as int, kicks, k as nat)
                        == Some(k as int));
                }
                return PieceMoveRes::Success;
            }
            k += 1;
        }
        proof {
            lemma_first_fit_skip(m, t, new_rot as nat, old_x as int, old_y as int, kicks, k as nat);
        }
        self.rotation = old_rot;
        self.location = (old_x, old_y);
        PieceMoveRes::Failed
    }

    /// Turns the piece a quarter turn clockwise.
    pub fn rotate_right(&mut self, board: &Board) -> (res: PieceMoveRes)
        requires
            old(self).wf(),
        ensures
            rotate_post(board.matrix@, *old(self), *final(self), res, 1 as int),
    {
        self.rotate(1, &board)
    }

    /// Turns the piece half a turn.
    pub fn rotate_180(&mut self, board: &Board) -> (res: PieceMoveRes)
        requires
            old(self).wf(),
        ensures
            rotate_post(board.matrix@, *old(self), *final(self), res, 2 as int),
    {
        self.rotate(2, &board)
    }

    /// Turns the piece a quarter turn counterclockwise.
    pub fn rotate_left(&mut self, board: &Board) -> (res: PieceMoveRes)
        requires
            old(self).wf(),
        ensures
            rotate_post(board.matrix@, *old(self), *final(self), res, 3 as int),
    {
        self.rotate(3, &board)
    }

    /// Moves the piece by `delta` when it fits there; otherwise it stays put.
    pub fn shift(&mut self, delta: (i8, i8), board: &Board) -> (res: PieceMoveRes)
        requires
            old(self).wf(),
            i8::MIN <= old(self).location.0 + delta.0 <= i8::MAX,
            i8::MIN <= old(self).location.1 + delta.1 <= i8::MAX,
        ensures
            shift_post(board.matrix@, *old(self), *final(self), res, delta.0 as int, delta.1 as int),
    {
        let (d_x, d_y) = delta;
        let (old_x, old_y) = self.location;
        proof {
            lemma_location_bounds_range(self.piece_type.index(), self.rotation as nat);
            crate::common::computed::lemma_shape_extent(self.piece_type.index(), self.rotation as nat);
        }
        let new_x = old_x + d_x;
        let new_y = old_y + d_y;
        self.location = (new_x, new_y);

        let (b_left, b_right, b_bottom, b_top) = self.get_location_bounds(None);
        if new_x < b_left || new_x > b_right || new_y < b_bottom || new_y > b_top
            || board.intersects_with(&self)
        {
            self.location = (old_x, old_y);
            return PieceMoveRes::Failed;
        }
        PieceMoveRes::Success
    }

    /// Moves the piece one column left when it fits there.
    pub fn shift_left(&mut self, board: &Board) -> (res: PieceMoveRes)
        requires
            old(self).wf(),
        ensures
            shift_post(board.matrix@, *old(self), *final(self), res, -1, 0),
    {
        proof {
            lemma_location_bounds_range(self.piece_type.index(), self.rotation as nat);
        }
        self.shift((-1, 0), board)
    }

    /// Moves the piece one column right when it fits there.
    pub fn shift_right(&mut self, board: &Board) -> (res: PieceMoveRes)
        requires
            old(self).wf(),
        ensures
            shift_post(board.matrix@, *old(self), *final(self), res, 1, 0),
    {
        proof {
            lemma_location_bounds_range(self.piece_type.index(), self.rotation as nat);
        }
        self.shift((1, 0), board)
    }

    /// Moves the piece one row down when it fits there.
    pub fn shift_down(&mut self, board: &Board) -> (res: PieceMoveRes)
        requires
            old(self).wf(),
        ensures
            shift_post(board.matrix@, *old(self), *final(self), res, 0, -1),
    {
        proof {
            lemma_location_bounds_range(self.piece_type.index(), self.rotation as nat);
        }
        self.shift((0, -1), board)
    }
}

impl Piece {
    /// Drops the piece straight down until it rests on the stack or the floor.
    pub fn soft_drop(&mut self, board: &Board) -> (res: PieceMoveRes)
        requires
            old(self).wf(),
            board.wf(),
        ensures
            drop_post(board.matrix@, *old(self), *final(self), res),
    {
        let ghost m = board.matrix@;
        let ghost t = self.piece_type.index();
        let ghost r = self.rotation as nat;
        let (p_x, old_y) = self.location;
        let height_map = self.get_height_map(None);
        proof {
            lemma_location_bounds_range(t, r);
            lemma_shape_extent(t, r);
        }
        let mut min_drop_amount = i8::MAX;
        let ghost mut best: int = 0;
        let mut i: i8 = 0;
        while i < 4 && min_drop_amount >= 0
            invariant
                0 <= i <= 4,
                0 <= t < 7,
                r < 4,
                t == self.piece_type.index(),
                r == self.rotation,
                p_x == self.location.0,
                old_y == self.location.1,
                -4 <= old_y <= 24,
                m == board.matrix@,
                board.wf(),
                self.wf(),
                height_map_matches(height_map, t, r),
                forall|k: int|
                    0 <= k < i && !col_empty(t, r, k) ==> min_drop_amount <= old_y + (
                    #[trigger] height_entry(t, r, k)).0 - col_height(m, p_x + k),
                min_drop_amount < 127 ==> 0 <= best < 4 && !col_empty(t, r, best)
                    && min_drop_amount == old_y + height_entry(t, r, best).0 - col_height(
                    m,
                    p_x + best,
                ),
                min_drop_amount < 0 ==> !above_stack(m, t, r, p_x as int, old_y as int),
            decreases 4 - i,
        {
            let (low, _) = height_map[i as usize];
            if low != -1 {
                proof {
                    lemma_column_on_board(t, r, p_x as int, i as int);
                }
                let x = p_x + i;
                let matrix_height = board.height_map[x as usize];
                proof {
                    assert(board.col_wf(x as int));
                    lemma_metadata_range(m, x as int);
                    lemma_first_below_props(t, r, i as int, 4);
                }
                let drop_amount = old_y + low - matrix_height;
                if drop_amount < min_drop_amount {
                    min_drop_amount = drop_amount;
                    proof {
                        best = i as int;
                    }
                }
            }
            i += 1;
        }
        if min_drop_amount >= 0 {
            proof {
                let lr = lead_empty_rows(t, r, 4);
                lemma_lead_rows_filled(t, r, 4);
                let i0 = lemma_row_nonempty_cell(t, r, lr);
                lemma_first_below_found(t, r, i0, lr, 4);
                lemma_metadata_range(m, p_x + i0);
                assert(min_drop_amount <= old_y + height_entry(t, r, i0).0 - col_height(m, p_x + i0));
                let y0 = old_y - min_drop_amount;
                assert(above_stack(m, t, r, p_x as int, y0));
                assert(above_stack(m, t, r, p_x as int, old_y as int));
                lemma_fits_above(m, t, r, p_x as int, y0);
                lemma_drop_fast(m, t, r, p_x as int, old_y as int, y0, best);
            }
            self.location.1 -= min_drop_amount;
            return if min_drop_amount != 0 {
                PieceMoveRes::Success
            } else {
                PieceMoveRes::Failed
            };
        }
        if let PieceMoveRes::Failed = self.shift_down(&board) {
            return PieceMoveRes::Failed;
        }
        loop
            invariant
                0 <= t < 7,
                r < 4,
                t == self.piece_type.index(),
                r == self.rotation,
                p_x == self.location.0,
                m == board.matrix@,
                self.wf(),
                self.piece_type == old(self).piece_type,
                self.rotation == old(self).rotation,
                drop_y(m, t, r, p_x as int, self.location.1 as int) == drop_y(
                    m,
                    t,
                    r,
                    p_x as int,
                    old_y as int,
                ),
            ensures
                self.wf(),
                self.piece_type == old(self).piece_type,
                self.rotation == old(self).rotation,
                p_x == self.location.0,
                self.location.1 == drop_y(m, t, r, p_x as int, old_y as int),
            decreases self.location.1 + 5,
        {
            proof {
                lemma_location_bounds_range(t, r);
            }
            let ghost before = self.location.1;
            match self.shift_down(&board) {
                PieceMoveRes::Success => {},
                PieceMoveRes::Failed => {
                    break;
                },
            }
        }
        PieceMoveRes::Failed
    }

    /// Makes one move of the piece on the board.
    pub fn make_move(&mut self, board: &Board, piece_move: &PieceMove) -> (res: PieceMoveRes)
        requires
            old(self).wf(),
            board.wf(),
        ensures
            piece_move_post(board.matrix@, *old(self), *final(self), res, *piece_move),
    {
        match piece_move {
            PieceMove::ShiftLeft => self.shift_left(board),
            PieceMove::ShiftRight => self.shift_right(board),
            PieceMove::RotateLeft => self.rotate_left(board),
            PieceMove::RotateRight => self.rotate_right(board),
            PieceMove::Rotate180 => self.rotate_180(board),
            PieceMove::SoftDrop => self.soft_drop(board),
        }
    }
}

/// The outcome of one move of a piece on a board with matrix `m`.
pub open spec fn piece_move_post(m: Seq<u16>, old: Piece, new: Piece, res: PieceMoveRes, mv: PieceMove) -> bool {
    match mv {
        PieceMove::ShiftLeft => shift_post(m, old, new, res, -1, 0),
        PieceMove::ShiftRight => shift_post(m, old, new, res, 1, 0),
        PieceMove::RotateLeft => rotate_post(m, old, new, res, 3),
        PieceMove::RotateRight => rotate_post(m, old, new, res, 1),
        PieceMove::Rotate180 => rotate_post(m, old, new, res, 2),
        PieceMove::SoftDrop => drop_post(m, old, new, res),
    }
}

/// The moves of a piece.
#[derive(Clone, Copy, Debug, PartialEq, Eq, Structural)]
pub enum PieceMove {
    ShiftLeft,
    ShiftRight,
    RotateLeft,
    RotateRight,
    Rotate180,
    SoftDrop,
}

impl PieceMove {
    /// The name of the move.
    pub fn to_string(&self) -> (s: String)
        ensures
            s@ == match self {
                PieceMove::ShiftLeft => "shiftLeft"@,
                PieceMove::ShiftRight => "shiftRight"@,
                PieceMove::RotateLeft => "rotateLeft"@,
                PieceMove::RotateRight => "rotateRight"@,
                PieceMove::Rotate180 => "rotate180"@,
                PieceMove::SoftDrop => "softDrop"@,
            },
    {
        let slice = match self {
            PieceMove::ShiftLeft => "shiftLeft",
            PieceMove::ShiftRight => "shiftRight",
            PieceMove::RotateLeft => "rotateLeft",
            PieceMove::RotateRight => "rotateRight",
            PieceMove::Rotate180 => "rotate180",
            PieceMove::SoftDrop => "softDrop",
        };
        String::from_str(slice)
    }
}

/// A piece of type `t` at its spawn location, unrotated.
pub open spec fn spawn_piece(t: PieceType) -> Piece {
    Piece {
        piece_type: t,
        rotation: 0,
        location: (spawn_location(t.index()).0 as i8, spawn_location(t.index()).1 as i8),
    }
}

/// `p` moved one row down when it fits there on matrix `m`.
pub open spec fn step_down(m: Seq<u16>, p: Piece) -> Piece {
    if fits(m, p.piece_type.index(), p.rotation as nat, p.location.0 as int, p.location.1 - 1) {
        Piece { location: (p.location.0, (p.location.1 - 1) as i8), ..p }
    } else {
        p
    }
}

/// `p` dropped straight down as far as it goes on matrix `m`.
pub open spec fn dropped(m: Seq<u16>, p: Piece) -> Piece {
    Piece {
        location: (
            p.location.0,
            drop_y(m, p.piece_type.index(), p.rotation as nat, p.location.0 as int, p.location.1 as int) as i8,
        ),
        ..p
    }
}

/// The spawn location lies within the bounds of the spawn orientation.
pub proof fn lemma_spawn_in_bounds(t: int)
    requires
        0 <= t < 7,
    ensures
        location_bounds(t, 0).0 <= spawn_location(t).0 <= location_bounds(t, 0).1,
        location_bounds(t, 0).2 <= spawn_location(t).1 <= location_bounds(t, 0).3,
{
    lemma_location_bounds_range(t, 0);
}

// Only the piece type is compared.
impl PartialEq for Piece {
    fn eq(&self, other: &Self) -> (same: bool) {
        self.piece_type == other.piece_type
    }
}

impl vstd::std_specs::cmp::PartialEqSpecImpl for Piece {
    open spec fn obeys_eq_spec() -> bool {
        true
    }

    open spec fn eq_spec(&self, other: &Self) -> bool {
        self.piece_type == other.piece_type
    }
}

} // verus!

//! The pieces of the center-four-wide bot: the same shapes, bounds and wall
//! kicks as the shared model, with 32-bit coordinates.
use vstd::prelude::*;
use crate::common::board::Board;
use crate::common::computed::{
    shape_of,
    bit_shape_of,
    height_map_of,
    location_bounds_of,
    kick_table_of,
    shape_matches,
    bit_shape_matches,
    height_entry,
    location_bounds,
    spawn_location,
    spec_piece_size,
    kick_table,
    lemma_location_bounds_range,
    lemma_shape_extent,
};
use crate::common::board::collides;
use crate::common::game::GameMove;
use crate::common::piece::{
    fits,
    first_fit,
    drop_y,
    piece_char,
    PieceMoveRes,
};

verus! {

/// The piece types.
#[derive(Clone, Copy, Debug, PartialEq, Eq, Hash, Structural)]
pub enum PieceType {
    O,
    I,
    T,
    L,
    J,
    S,
    Z,
}

/// The piece type numbered `i` (0 to 6).
pub open spec fn c4w_type_of(i: int) -> PieceType {
    if i == 0 {
        PieceType::O
    } else if i == 1 {
        PieceType::I
    } else if i == 2 {
        PieceType::T
    } else if i == 3 {
        PieceType::L
    } else if i == 4 {
        PieceType::J
    } else if i == 5 {
        PieceType::S
    } else {
        PieceType::Z
    }
}

impl PieceType {
    /// The number of the piece type, 0 to 6.
    pub open spec fn index(self) -> int {
        match self {
            PieceType::O => 0,
            PieceType::I => 1,
            PieceType::T => 2,
            PieceType::L => 3,
            PieceType::J => 4,
            PieceType::S => 5,
            PieceType::Z => 6,
        }
    }

    /// All piece types, in the order of their numbers.
    pub fn iter_types() -> (pieces: Vec<PieceType>)
        ensures
            pieces@.len() == 7,
            forall|i: int| 0 <= i < 7 ==> (#[trigger] pieces@[i]).index() == i,
    {
        let mut pieces: Vec<PieceType> = Vec::new();
        let mut i: i32 = 0;
        while i < 7
            invariant
                0 <= i <= 7,
                pieces@.len() == i,
                forall|k: int| 0 <= k < i ==> (#[trigger] pieces@[k]).index() == k,
            decreases 7 - i,
        {
            match PieceType::from_i32(i) {
                Ok(p) => pieces.push(p),
                Err(_) => {},
            }
            i += 1;
        }
        pieces
    }

    /// The piece type numbered `val`.
    pub fn from_i32(val: i32) -> (res: Result<Self, ()>)
        ensures
            0 <= val < 7 ==> (res matches Ok(p) && p.index() == val),
            !(0 <= val < 7) ==> res is Err,
    {
        match val {
            0 => Ok(PieceType::O),
            1 => Ok(PieceType::I),
            2 => Ok(PieceType::T),
            3 => Ok(PieceType::L),
            4 => Ok(PieceType::J),
            5 => Ok(PieceType::S),
            6 => Ok(PieceType::Z),
            _ => Err(()),
        }
    }

    /// The number of the piece type.
    pub fn to_i32(&self) -> (val: i32)
        ensures
            val == self.index(),
    {
        match self {
            PieceType::O => 0,
            PieceType::I => 1,
            PieceType::T => 2,
            PieceType::L => 3,
            PieceType::J => 4,
            PieceType::S => 5,
            PieceType::Z => 6,
        }
    }

    /// The letter of the piece type.
    pub fn to_char(&self) -> (c: char)
        ensures
            c == piece_char(self.index()),
    {
        match self {
            PieceType::O => 'O',
            PieceType::I => 'I',
            PieceType::T => 'T',
            PieceType::L => 'L',
            PieceType::J => 'J',
            PieceType::S => 'S',
            PieceType::Z => 'Z',
        }
    }

    /// The piece type of the shared model with the same number.
    pub fn from_common(t: &crate::common::piece::PieceType) -> (p: Self)
        ensures
            p.index() == t.index(),
    {
        match t {
            crate::common::piece::PieceType::O => PieceType::O,
            crate::common::piece::PieceType::I => PieceType::I,
            crate::common::piece::PieceType::T => PieceType::T,
            crate::common::piece::PieceType::L => PieceType::L,
            crate::common::piece::PieceType::J => PieceType::J,
            crate::common::piece::PieceType::S => PieceType::S,
            crate::common::piece::PieceType::Z => PieceType::Z,
        }
    }

    /// The same piece type in the shared model.
    pub fn to_common(&self) -> (t: crate::common::piece::PieceType)
        ensures
            t.index() == self.index(),
    {
        match self {
            PieceType::O => crate::common::piece::PieceType::O,
            PieceType::I => crate::common::piece::PieceType::I,
            PieceType::T => crate::common::piece::PieceType::T,
            PieceType::L => crate::common::piece::PieceType::L,
            PieceType::J => crate::common::piece::PieceType::J,
            PieceType::S => crate::common::piece::PieceType::S,
            PieceType::Z => crate::common::piece::PieceType::Z,
        }
    }
}

/// A piece of a given type, in a given orientation, whose box's lower left
/// corner stands at `location`.
#[derive(Clone, Copy, Debug)]
pub struct Piece {
    pub piece_type: PieceType,
    pub rotation: i32,
    pub location: (i32, i32),
}

/// The tables of every piece type and orientation.
pub struct PieceInfo {
    pub sizes: [i32; 7],
    pub starting_positions: [(i32, i32); 7],
    pub shapes: [[[[bool; 4]; 4]; 4]; 7],
    pub bit_shapes: [[[[u16; 4]; 11]; 4]; 7],
    /// For every column of the box: the row of its lowest cell and its
    /// number of cells, both -1 for an empty column.
    pub height_maps: [[[(i32, i32); 4]; 4]; 7],
    /// The lowest and highest column and row of the box's corner.
    pub shift_bounds: [[(i32, i32, i32, i32); 4]; 7],
    pub kick_table: Vec<Vec<Vec<Vec<(i32, i32)>>>>,
}

/// `v` holds the offsets `kicks`.
pub open spec fn kicks_match32(v: Seq<(i32, i32)>, kicks: Seq<(int, int)>) -> bool {
    &&& v.len() == kicks.len()
    &&& forall|k: int| 0 <= k < v.len() ==> v[k].0 == kicks[k].0 && v[k].1 == kicks[k].1
}

/// `hm` holds the lowest cell and the number of cells of every column.
pub open spec fn height_map_matches32(hm: [(i32, i32); 4], t: int, r: nat) -> bool {
    forall|i: int|
        0 <= i < 4 ==> hm[i].0 == height_entry(t, r, i).0 && hm[i].1 == height_entry(t, r, i).1
}

fn widen_kicks(v: Vec<(i8, i8)>) -> (w: Vec<(i32, i32)>)
    ensures
        w@.len() == v@.len(),
        forall|k: int| 0 <= k < v@.len() ==> w@[k].0 == v@[k].0 && w@[k].1 == v@[k].1,
{
    let mut w: Vec<(i32, i32)> = Vec::new();
    let mut k: usize = 0;
    while k < v.len()
        invariant
            0 <= k <= v@.len(),
            w@.len() == k,
            forall|j: int| 0 <= j < k ==> w@[j].0 == v@[j].0 && w@[j].1 == v@[j].1,
        decreases v@.len() - k,
    {
        let (a, b) = v[k];
        w.push((a as i32, b as i32));
        k += 1;
    }
    w
}

fn widen_height_map(hm: [(i8, i8); 4]) -> (w: [(i32, i32); 4])
    ensures
        forall|i: int| 0 <= i < 4 ==> w[i].0 == hm[i].0 && w[i].1 == hm[i].1,
{
    [
        (hm[0].0 as i32, hm[0].1 as i32),
        (hm[1].0 as i32, hm[1].1 as i32),
        (hm[2].0 as i32, hm[2].1 as i32),
        (hm[3].0 as i32, hm[3].1 as i32),
    ]
}

impl PieceInfo {
    /// The tables of the shared model, widened.
    pub fn new() -> (info: Self)
        ensures
            forall|t: int| 0 <= t < 7 ==> #[trigger] info.sizes[t] == spec_piece_size(t),
            forall|t: int|
                0 <= t < 7 ==> #[trigger] info.starting_positions[t].0 == spawn_location(t).0
                    && info.starting_positions[t].1 == spawn_location(t).1,
            forall|t: int, r: int|
                0 <= t < 7 && 0 <= r < 4 ==> shape_matches(#[trigger] info.shapes[t][r], t, r as nat),
            forall|t: int, r: int, s: int|
                0 <= t < 7 && 0 <= r < 4 && 0 <= s < 11 ==> bit_shape_matches(
                    #[trigger] info.bit_shapes[t][r][s],
                    t,
                    r as nat,
                    s - 2,
                ),
            forall|t: int, r: int|
                0 <= t < 7 && 0 <= r < 4 ==> height_map_matches32(#[trigger] info.height_maps[t][r], t, r as nat),
            forall|t: int, r: int|
                0 <= t < 7 && 0 <= r < 4 ==> (#[trigger] info.shift_bounds[t][r]).0 == location_bounds(t, r as nat).0
                    && info.shift_bounds[t][r].1 == location_bounds(t, r as nat).1
                    && info.shift_bounds[t][r].2 == location_bounds(t, r as nat).2
                    && info.shift_bounds[t][r].3 == location_bounds(t, r as nat).3,
            info.kick_table@.len() == 7,
            forall|t: int, a: int, b: int|
                0 <= t < 7 && 0 <= a < 4 && 0 <= b < 4 ==> (#[trigger] info.kick_table@[t]@[a]@[b])@.len()
                    == kick_table(t, a, b).len() && kicks_match32(info.kick_table@[t]@[a]@[b]@, kick_table(t, a, b))
                    && info.kick_table@[t]@.len() == 4 && info.kick_table@[t]@[a]@.len() == 4,
    {
        let sizes: [i32; 7] = [2, 4, 3, 3, 3, 3, 3];
        let starting_positions: [(i32, i32); 7] = [(3, 19), (3, 18), (3, 19), (3, 19), (3, 19), (3, 19), (3, 19)];
        let mut shapes = [[[[false; 4]; 4]; 4]; 7];
        let mut bit_shapes = [[[[0u16; 4]; 11]; 4]; 7];
        let mut height_maps = [[[(0i32, 0i32); 4]; 4]; 7];
        let mut shift_bounds = [[(0i32, 0i32, 0i32, 0i32); 4]; 7];
        let mut kicks: Vec<Vec<Vec<Vec<(i32, i32)>>>> = Vec::new();
        let mut t: usize = 0;
        while t < 7
            invariant
                0 <= t <= 7,
                kicks@.len() == t,
                forall|tt: int, r: int| 0 <= tt < t && 0 <= r < 4 ==> shape_matches(#[trigger] shapes[tt][r], tt, r as nat),
                forall|tt: int, r: int, s: int|
                    0 <= tt < t && 0 <= r < 4 && 0 <= s < 11 ==> bit_shape_matches(
                        #[trigger] bit_shapes[tt][r][s],
                        tt,
                        r as nat,
                        s - 2,
                    ),
                forall|tt: int, r: int|
                    0 <= tt < t && 0 <= r < 4 ==> height_map_matches32(#[trigger] height_maps[tt][r], tt, r as nat),
                forall|tt: int, r: int|
                    0 <= tt < t && 0 <= r < 4 ==> (#[trigger] shift_bounds[tt][r]).0 == location_bounds(tt, r as nat).0
                        && shift_bounds[tt][r].1 == location_bounds(tt, r as nat).1
                        && shift_bounds[tt][r].2 == location_bounds(tt, r as nat).2
                        && shift_bounds[tt][r].3 == location_bounds(tt, r as nat).3,
                forall|tt: int, a: int, b: int|
                    0 <= tt < t && 0 <= a < 4 && 0 <= b < 4 ==> (#[trigger] kicks@[tt]@[a]@[b])@.len()
                        == kick_table(tt, a, b).len() && kicks_match32(kicks@[tt]@[a]@[b]@, kick_table(tt, a, b))
                        && kicks@[tt]@.len() == 4 && kicks@[tt]@[a]@.len() == 4,
            decreases 7 - t,
        {
            let mut per_from: Vec<Vec<Vec<(i32, i32)>>> = Vec::new();
            let mut r: usize = 0;
            while r < 4
                invariant
                    0 <= t < 7,
                    0 <= r <= 4,
                    per_from@.len() == r,
                    kicks@.len() == t,
                    forall|tt: int, rr: int| 0 <= tt < t && 0 <= rr < 4 ==> shape_matches(#[trigger] shapes[tt][rr], tt, rr as nat),
                    forall|rr: int| 0 <= rr < r ==> shape_matches(#[trigger] shapes[t as int][rr], t as int, rr as nat),
                    forall|tt: int, rr: int, s: int|
                        0 <= tt < t && 0 <= rr < 4 && 0 <= s < 11 ==> bit_shape_matches(
                            #[trigger] bit_shapes[tt][rr][s],
                            tt,
                            rr as nat,
                            s - 2,
                        ),
                    forall|rr: int, s: int|
                        0 <= rr < r && 0 <= s < 11 ==> bit_shape_matches(
                            #[trigger] bit_shapes[t as int][rr][s],
                            t as int,
                            rr as nat,
                            s - 2,
                        ),
                    forall|tt: int, rr: int|
                        0 <= tt < t && 0 <= rr < 4 ==> height_map_matches32(#[trigger] height_maps[tt][rr], tt, rr as nat),
                    forall|rr: int| 0 <= rr < r ==> height_map_matches32(#[trigger] height_maps[t as int][rr], t as int, rr as nat),
                    forall|tt: int, rr: int|
                        0 <= tt < t && 0 <= rr < 4 ==> (#[trigger] shift_bounds[tt][rr]).0 == location_bounds(tt, rr as nat).0
                            && shift_bounds[tt][rr].1 == location_bounds(tt, rr as nat).1
                            && shift_bounds[tt][rr].2 == location_bounds(tt, rr as nat).2
                            && shift_bounds[tt][rr].3 == location_bounds(tt, rr as nat).3,
                    forall|rr: int|
                        0 <= rr < r ==> (#[trigger] shift_bounds[t as int][rr]).0 == location_bounds(t as int, rr as nat).0
                            && shift_bounds[t as int][rr].1 == location_bounds(t as int, rr as nat).1
                            && shift_bounds[t as int][rr].2 == location_bounds(t as int, rr as nat).2
                            && shift_bounds[t as int][rr].3 == location_bounds(t as int, rr as nat).3,
                    forall|tt: int, a: int, b: int|
                        0 <= tt < t && 0 <= a < 4 && 0 <= b < 4 ==> (#[trigger] kicks@[tt]@[a]@[b])@.len()
                            == kick_table(tt, a, b).len() && kicks_match32(kicks@[tt]@[a]@[b]@, kick_table(tt, a, b))
                            && kicks@[tt]@.len() == 4 && kicks@[tt]@[a]@.len() == 4,
                    forall|a: int, b: int|
                        0 <= a < r && 0 <= b < 4 ==> (#[trigger] per_from@[a]@[b])@.len() == kick_table(t as int, a, b).len()
                            && kicks_match32(per_from@[a]@[b]@, kick_table(t as int, a, b)) && per_from@[a]@.len() == 4,
                decreases 4 - r,
            {
                let shape = shape_of(t, r);
                shapes[t][r] = shape;
                let mut s: usize = 0;
                while s < 11
                    invariant
                        0 <= t < 7,
                        0 <= r < 4,
                        0 <= s <= 11,
                        shape_matches(shape, t as int, r as nat),
                        forall|tt: int, rr: int, ss: int|
                            0 <= tt < t && 0 <= rr < 4 && 0 <= ss < 11 ==> bit_shape_matches(
                                #[trigger] bit_shapes[tt][rr][ss],
                                tt,
                                rr as nat,
                                ss - 2,
                            ),
                        forall|rr: int, ss: int|
                            0 <= rr < r && 0 <= ss < 11 ==> bit_shape_matches(
                                #[trigger] bit_shapes[t as int][rr][ss],
                                t as int,
                                rr as nat,
                                ss - 2,
                            ),
                        forall|ss: int| 0 <= ss < s ==> bit_shape_matches(
                            #[trigger] bit_shapes[t as int][r as int][ss],
                            t as int,
                            r as nat,
                            ss - 2,
                        ),
                    decreases 11 - s,
                {
                    bit_shapes[t][r][s] = bit_shape_of(t, r, shape, (s as i8) - 2);
                    s += 1;
                }
                let hm = height_map_of(t, r, shape);
                height_maps[t][r] = widen_height_map(hm);
                let center = bit_shape_of(t, r, shape, 3);
                let b = location_bounds_of(t, r, hm, center);
                shift_bounds[t][r] = (b.0 as i32, b.1 as i32, b.2 as i32, b.3 as i32);
                let mut per_to: Vec<Vec<(i32, i32)>> = Vec::new();
                let mut to: usize = 0;
                while to < 4
                    invariant
                        0 <= t < 7,
                        0 <= r < 4,
                        0 <= to <= 4,
                        per_to@.len() == to,
                        forall|bb: int|
                            0 <= bb < to ==> (#[trigger] per_to@[bb])@.len() == kick_table(t as int, r as int, bb).len()
                                && kicks_match32(per_to@[bb]@, kick_table(t as int, r as int, bb)),
                    decreases 4 - to,
                {
                    per_to.push(widen_kicks(kick_table_of(t, r, to)));
                    to += 1;
                }
                per_from.push(per_to);
                r += 1;
            }
            kicks.push(per_from);
            t += 1;
        }
        PieceInfo { sizes, starting_positions, shapes, bit_shapes, height_maps, shift_bounds, kick_table: kicks }
    }
}

proof fn lemma_common_type(t: crate::common::piece::PieceType, i: int)
    requires
        t.index() == i,
    ensures
        t == crate::common::piece::piece_type_of(i),
{
    match t {
        crate::common::piece::PieceType::O => {},
        crate::common::piece::PieceType::I => {},
        crate::common::piece::PieceType::T => {},
        crate::common::piece::PieceType::L => {},
        crate::common::piece::PieceType::J => {},
        crate::common::piece::PieceType::S => {},
        crate::common::piece::PieceType::Z => {},
    }
}

/// The same piece in the shared model.
pub open spec fn common_of(p: Piece) -> crate::common::piece::Piece {
    crate::common::piece::Piece {
        piece_type: crate::common::piece::piece_type_of(p.piece_type.index()),
        rotation: p.rotation as i8,
        location: (p.location.0 as i8, p.location.1 as i8),
    }
}

impl Piece {
    /// The orientation is one of the four and the box lies within the
    /// location bounds of that orientation.
    pub open spec fn wf(&self) -> bool {
        let b = location_bounds(self.piece_type.index(), self.rotation as nat);
        &&& 0 <= self.rotation < 4
        &&& b.0 <= self.location.0 <= b.1
        &&& b.2 <= self.location.1 <= b.3
    }

    /// The size of a piece type's box.
    pub fn info_size(piece_type: &PieceType) -> (size: i32)
        ensures
            size == spec_piece_size(piece_type.index()),
    {
        match piece_type {
            PieceType::O => 2,
            PieceType::I => 4,
            _ => 3,
        }
    }

    /// The starting location of a piece type.
    pub fn info_starting_position(piece_type: &PieceType) -> (loc: (i32, i32))
        ensures
            loc.0 == spawn_location(piece_type.index()).0,
            loc.1 == spawn_location(piece_type.index()).1,
    {
        match piece_type {
            PieceType::I => (3, 18),
            _ => (3, 19),
        }
    }

    /// The shape of a piece type in an orientation.
    pub fn info_shape(piece_type: &PieceType, rotation: i32) -> (shape: [[bool; 4]; 4])
        requires
            0 <= rotation < 4,
        ensures
            shape_matches(shape, piece_type.index(), rotation as nat),
    {
        shape_of(piece_type.to_i32() as usize, rotation as usize)
    }

    /// The board rows of a piece type in an orientation, its box's left
    /// edge at column `x_pos`.
    pub fn info_bit_shape(piece_type: &PieceType, rotation: i32, x_pos: i32) -> (bits: [u16; 4])
        requires
            0 <= rotation < 4,
            -2 <= x_pos <= 8,
        ensures
            bit_shape_matches(bits, piece_type.index(), rotation as nat, x_pos as int),
    {
        let t = piece_type.to_i32() as usize;
        let shape = shape_of(t, rotation as usize);
        bit_shape_of(t, rotation as usize, shape, x_pos as i8)
    }

    /// The lowest cell and the number of cells of every column of a piece
    /// type in an orientation.
    pub fn info_height_map(piece_type: &PieceType, rotation: i32) -> (hm: [(i32, i32); 4])
        requires
            0 <= rotation < 4,
        ensures
            height_map_matches32(hm, piece_type.index(), rotation as nat),
    {
        let t = piece_type.to_i32() as usize;
        let shape = shape_of(t, rotation as usize);
        widen_height_map(height_map_of(t, rotation as usize, shape))
    }

    /// The lowest and highest column and row of the box's corner.
    pub fn info_shift_bounds(piece_type: &PieceType, rotation: i32) -> (b: (i32, i32, i32, i32))
        requires
            0 <= rotation < 4,
        ensures
            b.0 == location_bounds(piece_type.index(), rotation as nat).0,
            b.1 == location_bounds(piece_type.index(), rotation as nat).1,
            b.2 == location_bounds(piece_type.index(), rotation as nat).2,
            b.3 == location_bounds(piece_type.index(), rotation as nat).3,
    {
        let t = piece_type.to_i32() as usize;
        let r = rotation as usize;
        let shape = shape_of(t, r);
        let hm = height_map_of(t, r, shape);
        let center = bit_shape_of(t, r, shape, 3);
        let b = location_bounds_of(t, r, hm, center);
        (b.0 as i32, b.1 as i32, b.2 as i32, b.3 as i32)
    }

    /// The wall kicks of a piece type from one orientation to another.
    pub fn info_kick_table(piece_type: &PieceType, from: i32, to: i32) -> (kicks: Vec<(i32, i32)>)
        requires
            0 <= from < 4,
            0 <= to < 4,
        ensures
            kicks_match32(kicks@, kick_table(piece_type.index(), from as int, to as int)),
    {
        widen_kicks(kick_table_of(piece_type.to_i32() as usize, from as usize, to as usize))
    }

    /// The size of this piece's box.
    pub fn get_size(&self) -> (size: i32)
        ensures
            size == spec_piece_size(self.piece_type.index()),
    {
        Piece::info_size(&self.piece_type)
    }

    /// The starting location of this piece's type.
    pub fn get_starting_position(&self) -> (loc: (i32, i32))
        ensures
            loc.0 == spawn_location(self.piece_type.index()).0,
            loc.1 == spawn_location(self.piece_type.index()).1,
    {
        Piece::info_starting_position(&self.piece_type)
    }

    /// The shape of this piece, in the given orientation or its own.
    pub fn get_shape(&self, rotation: Option<i32>) -> (shape: [[bool; 4]; 4])
        requires
            0 <= rotation.unwrap_or(self.rotation) < 4,
        ensures
            shape_matches(shape, self.piece_type.index(), rotation.unwrap_or(self.rotation) as nat),
    {
        Piece::info_shape(&self.piece_type, rotation.unwrap_or(self.rotation))
    }

    /// The board rows of this piece, in the given orientation or its own, at
    /// the given column or its own.
    pub fn get_bit_shape(&self, rotation: Option<i32>, x_pos: Option<i32>) -> (bits: [u16; 4])
        requires
            0 <= rotation.unwrap_or(self.rotation) < 4,
            -2 <= x_pos.unwrap_or(self.location.0) <= 8,
        ensures
            bit_shape_matches(
                bits,
                self.piece_type.index(),
                rotation.unwrap_or(self.rotation) as nat,
                x_pos.unwrap_or(self.location.0) as int,
            ),
    {
        Piece::info_bit_shape(
            &self.piece_type,
            rotation.unwrap_or(self.rotation),
            x_pos.unwrap_or(self.location.0),
        )
    }

    /// The height map of this piece, in the given orientation or its own.
    pub fn get_height_map(&self, rotation: Option<i32>) -> (hm: [(i32, i32); 4])
        requires
            0 <= rotation.unwrap_or(self.rotation) < 4,
        ensures
            height_map_matches32(hm, self.piece_type.index(), rotation.unwrap_or(self.rotation) as nat),
    {
        Piece::info_height_map(&self.piece_type, rotation.unwrap_or(self.rotation))
    }

    /// The location bounds of this piece, in the given orientation or its own.
    pub fn get_shift_bounds(&self, rotation: Option<i32>) -> (b: (i32, i32, i32, i32))
        requires
            0 <= rotation.unwrap_or(self.rotation) < 4,
        ensures
            b.0 == location_bounds(self.piece_type.index(), rotation.unwrap_or(self.rotation) as nat).0,
            b.1 == location_bounds(self.piece_type.index(), rotation.unwrap_or(self.rotation) as nat).1,
            b.2 == location_bounds(self.piece_type.index(), rotation.unwrap_or(self.rotation) as nat).2,
            b.3 == location_bounds(self.piece_type.index(), rotation.unwrap_or(self.rotation) as nat).3,
    {
        Piece::info_shift_bounds(&self.piece_type, rotation.unwrap_or(self.rotation))
    }

    /// The wall kicks of this piece from the given orientation (or its own)
    /// to orientation `to`.
    pub fn get_kick_table(&self, from: Option<i32>, to: i32) -> (kicks: Vec<(i32, i32)>)
        requires
            0 <= from.unwrap_or(self.rotation) < 4,
            0 <= to < 4,
        ensures
            kicks_match32(
                kicks@,
                kick_table(self.piece_type.index(), from.unwrap_or(self.rotation) as int, to as int),
            ),
    {
        Piece::info_kick_table(&self.piece_type, from.unwrap_or(self.rotation), to)
    }

    /// The letter of this piece's type.
    pub fn to_string(&self) -> (s: String)
        ensures
            s@ == seq![piece_char(self.piece_type.index())],
    {
        proof {
            reveal_strlit("O");
            reveal_strlit("I");
            reveal_strlit("T");
            reveal_strlit("L");
            reveal_strlit("J");
            reveal_strlit("S");
            reveal_strlit("Z");
        }
        let text = match self.piece_type {
            PieceType::O => "O",
            PieceType::I => "I",
            PieceType::T => "T",
            PieceType::L => "L",
            PieceType::J => "J",
            PieceType::S => "S",
            PieceType::Z => "Z",
        };
        String::from_str(text)
    }

    /// A piece of the given type at its starting location, unrotated.
    pub fn new(piece_type: PieceType) -> (piece: Self)
        ensures
            piece.piece_type == piece_type,
            piece.rotation == 0,
            piece.location.0 == spawn_location(piece_type.index()).0,
            piece.location.1 == spawn_location(piece_type.index()).1,
            piece.wf(),
    {
        let location = Piece::info_starting_position(&piece_type);
        proof {
            crate::common::piece::lemma_spawn_in_bounds(piece_type.index());
        }
        Piece { piece_type, rotation: 0, location }
    }

    /// Moves the piece back to its starting location and orientation.
    pub fn reset(&mut self)
        ensures
            final(self).piece_type == old(self).piece_type,
            final(self).rotation == 0,
            final(self).location.0 == spawn_location(old(self).piece_type.index()).0,
            final(self).location.1 == spawn_location(old(self).piece_type.index()).1,
            final(self).wf(),
    {
        self.rotation = 0;
        self.location = self.get_starting_position();
        proof {
            crate::common::piece::lemma_spawn_in_bounds(self.piece_type.index());
        }
    }

    /// The same piece in the shared model.
    pub(crate) fn to_common(&self) -> (p: crate::common::piece::Piece)
        requires
            self.wf(),
        ensures
            p == common_of(*self),
            p.wf(),
            p.piece_type.index() == self.piece_type.index(),
    {
        proof {
            lemma_location_bounds_range(self.piece_type.index(), self.rotation as nat);
        }
        let t = self.piece_type.to_common();
        proof {
            lemma_common_type(t, self.piece_type.index());
        }
        crate::common::piece::Piece {
            piece_type: t,
            rotation: self.rotation as i8,
            location: (self.location.0 as i8, self.location.1 as i8),
        }
    }
}


/// The outcome of moving `old` by `(dx, dy)` on a board with matrix `m`:
/// the move happens exactly when the piece fits at the new location.
pub open spec fn c4w_shift_post(m: Seq<u16>, old: Piece, new: Piece, moved: bool, dx: int, dy: int) -> bool {
    let t = old.piece_type.index();
    let nx = old.location.0 + dx;
    let ny = old.location.1 + dy;
    &&& new.piece_type == old.piece_type
    &&& new.rotation == old.rotation
    &&& new.wf()
    &&& if fits(m, t, old.rotation as nat, nx, ny) {
        moved && new.location.0 == nx && new.location.1 == ny
    } else {
        !moved && new.location == old.location
    }
}

/// The outcome of turning `old` by `amount` quarter turns on a board with
/// matrix `m`: the first wall kick that fits is taken, and the piece stays
/// put when none does.
pub open spec fn c4w_rotate_post(m: Seq<u16>, old: Piece, new: Piece, moved: bool, amount: int) -> bool {
    let t = old.piece_type.index();
    let new_rot = (old.rotation + amount) % 4;
    let x = old.location.0 as int;
    let y = old.location.1 as int;
    let kicks = kick_table(t, old.rotation as int, new_rot);
    &&& new.piece_type == old.piece_type
    &&& new.wf()
    &&& match first_fit(m, t, new_rot as nat, x, y, kicks, 0) {
        Some(k) => moved && new.rotation == new_rot && new.location.0 == x + kicks[k].0
            && new.location.1 == y + kicks[k].1,
        None => !moved && new.rotation == old.rotation && new.location == old.location,
    }
}

/// The outcome of a soft drop of `old` on a board with matrix `m`: the piece
/// comes to rest straight below, and the move reports whether it moved.
pub open spec fn c4w_drop_post(m: Seq<u16>, old: Piece, new: Piece, moved: bool) -> bool {
    let t = old.piece_type.index();
    let r = old.rotation as nat;
    &&& new.piece_type == old.piece_type
    &&& new.rotation == old.rotation
    &&& new.location.0 == old.location.0
    &&& new.location.1 == drop_y(m, t, r, old.location.0 as int, old.location.1 as int)
    &&& new.wf()
    &&& moved == (new.location.1 != old.location.1)
}

/// The outcome of one move of a piece on a board with matrix `m`.
pub open spec fn c4w_move_post(m: Seq<u16>, old: Piece, new: Piece, moved: bool, mv: PieceMove) -> bool {
    match mv {
        PieceMove::ShiftLeft => c4w_shift_post(m, old, new, moved, -1, 0),
        PieceMove::ShiftRight => c4w_shift_post(m, old, new, moved, 1, 0),
        PieceMove::RotateLeft => c4w_rotate_post(m, old, new, moved, 3),
        PieceMove::RotateRight => c4w_rotate_post(m, old, new, moved, 1),
        PieceMove::Rotate180 => c4w_rotate_post(m, old, new, moved, 2),
        PieceMove::SoftDrop => c4w_drop_post(m, old, new, moved),
    }
}

/// `p` moved `dx` columns over when it fits there; else `p`.
pub open spec fn shifted(m: Seq<u16>, p: Piece, dx: int) -> Piece {
    if fits(m, p.piece_type.index(), p.rotation as nat, p.location.0 + dx, p.location.1 as int) {
        Piece { piece_type: p.piece_type, rotation: p.rotation, location: ((p.location.0 + dx) as i32, p.location.1) }
    } else {
        p
    }
}

/// `p` turned by `amount` quarter turns with the first wall kick that fits;
/// `p` itself when none does.
pub open spec fn turned(m: Seq<u16>, p: Piece, amount: int) -> Piece {
    let t = p.piece_type.index();
    let new_rot = (p.rotation + amount) % 4;
    let kicks = kick_table(t, p.rotation as int, new_rot);
    match first_fit(m, t, new_rot as nat, p.location.0 as int, p.location.1 as int, kicks, 0) {
        Some(k) => Piece {
            piece_type: p.piece_type,
            rotation: new_rot as i32,
            location: ((p.location.0 + kicks[k].0) as i32, (p.location.1 + kicks[k].1) as i32),
        },
        None => p,
    }
}

/// `p` dropped straight down as far as it goes.
pub open spec fn sunk(m: Seq<u16>, p: Piece) -> Piece {
    Piece {
        piece_type: p.piece_type,
        rotation: p.rotation,
        location: (
            p.location.0,
            drop_y(m, p.piece_type.index(), p.rotation as nat, p.location.0 as int, p.location.1 as int) as i32,
        ),
    }
}

/// Where piece `p` is after move `mv` on a board with matrix `m`.
pub open spec fn c4w_step(m: Seq<u16>, p: Piece, mv: PieceMove) -> Piece {
    match mv {
        PieceMove::ShiftLeft => shifted(m, p, -1),
        PieceMove::ShiftRight => shifted(m, p, 1),
        PieceMove::RotateLeft => turned(m, p, 3),
        PieceMove::RotateRight => turned(m, p, 1),
        PieceMove::Rotate180 => turned(m, p, 2),
        PieceMove::SoftDrop => sunk(m, p),
    }
}

/// Where piece `p` is after the moves `moves`, in order.
pub open spec fn c4w_run(m: Seq<u16>, p: Piece, moves: Seq<PieceMove>) -> Piece
    decreases moves.len(),
{
    if moves.len() == 0 {
        p
    } else {
        c4w_run(m, c4w_step(m, p, moves[0]), moves.drop_first())
    }
}

/// A piece of type `t` at its starting location, unrotated.
pub open spec fn c4w_spawn(t: PieceType) -> Piece {
    Piece {
        piece_type: t,
        rotation: 0,
        location: (spawn_location(t.index()).0 as i32, spawn_location(t.index()).1 as i32),
    }
}

/// The piece type numbered as `t` is `t`.
pub proof fn lemma_c4w_type_of_index(t: PieceType)
    ensures
        c4w_type_of(t.index()) == t,
{
    match t {
        PieceType::O => {},
        PieceType::I => {},
        PieceType::T => {},
        PieceType::L => {},
        PieceType::J => {},
        PieceType::S => {},
        PieceType::Z => {},
    }
}

/// A move's outcome is the step it names.
pub proof fn lemma_move_post_step(m: Seq<u16>, old: Piece, new: Piece, moved: bool, mv: PieceMove)
    requires
        c4w_move_post(m, old, new, moved, mv),
    ensures
        new == c4w_step(m, old, mv),
{
}

/// Running `moves` then one more move is the step after the run.
pub proof fn lemma_run_push(m: Seq<u16>, p: Piece, moves: Seq<PieceMove>, mv: PieceMove)
    ensures
        c4w_run(m, p, moves.push(mv)) == c4w_step(m, c4w_run(m, p, moves), mv),
    decreases moves.len(),
{
    if moves.len() == 0 {
        assert(moves.push(mv).drop_first() =~= Seq::<PieceMove>::empty());
        assert(moves.push(mv)[0] == mv);
        assert(c4w_run(m, c4w_step(m, p, mv), Seq::<PieceMove>::empty()) == c4w_step(m, p, mv));
    } else {
        assert(moves.push(mv).drop_first() =~= moves.drop_first().push(mv));
        assert(moves.push(mv)[0] == moves[0]);
        lemma_run_push(m, c4w_step(m, p, moves[0]), moves.drop_first(), mv);
    }
}

impl Piece {
    /// Turns the piece by `amount` quarter turns clockwise, trying the wall
    /// kicks in order; the piece stays put when none of them fits.
    pub fn rotate(&mut self, amount: i32, board: &Board) -> (moved: bool)
        requires
            old(self).wf(),
            0 <= old(self).rotation + amount <= i32::MAX,
        ensures
            c4w_rotate_post(board.matrix@, *old(self), *final(self), moved, amount as int),
    {
        let mut p = self.to_common();
        let target = (self.rotation + amount) % 4;
        let quarter = (target - self.rotation) as i8;
        let ghost cp = common_of(*old(self));
        let res = p.rotate(quarter, board);
        proof {
            lemma_location_bounds_range(self.piece_type.index(), p.rotation as nat);
            lemma_location_bounds_range(self.piece_type.index(), old(self).rotation as nat);
            assert(cp.location.0 == old(self).location.0 && cp.location.1 == old(self).location.1);
            assert(cp.piece_type.index() == self.piece_type.index());
            assert(target == (old(self).rotation + amount) % 4);
            assert((cp.rotation + quarter) % 4 == target);
        }
        self.rotation = p.rotation as i32;
        self.location = (p.location.0 as i32, p.location.1 as i32);
        match res {
            PieceMoveRes::Success => true,
            PieceMoveRes::Failed => false,
        }
    }

    /// Turns the piece a quarter turn clockwise.
    pub fn rotate_right(&mut self, board: &Board) -> (moved: bool)
        requires
            old(self).wf(),
        ensures
            c4w_rotate_post(board.matrix@, *old(self), *final(self), moved, 1),
    {
        self.rotate(1, &board)
    }

    /// Turns the piece half a turn.
    pub fn rotate_180(&mut self, board: &Board) -> (moved: bool)
        requires
            old(self).wf(),
        ensures
            c4w_rotate_post(board.matrix@, *old(self), *final(self), moved, 2),
    {
        self.rotate(2, &board)
    }

    /// Turns the piece a quarter turn counterclockwise.
    pub fn rotate_left(&mut self, board: &Board) -> (moved: bool)
        requires
            old(self).wf(),
        ensures
            c4w_rotate_post(board.matrix@, *old(self), *final(self), moved, 3),
    {
        self.rotate(3, &board)
    }

    /// Moves the piece by `delta` when it fits there; otherwise it stays put.
    pub fn shift(&mut self, delta: (i32, i32), board: &Board) -> (moved: bool)
        requires
            old(self).wf(),
            i32::MIN <= old(self).location.0 + delta.0 <= i32::MAX,
            i32::MIN <= old(self).location.1 + delta.1 <= i32::MAX,
        ensures
            c4w_shift_post(board.matrix@, *old(self), *final(self), moved, delta.0 as int, delta.1 as int),
    {
        let (d_x, d_y) = delta;
        let (old_x, old_y) = self.location;
        proof {
            lemma_location_bounds_range(self.piece_type.index(), self.rotation as nat);
            crate::common::computed::lemma_shape_extent(self.piece_type.index(), self.rotation as nat);
        }
        let new_x = old_x + d_x;
        let new_y = old_y + d_y;
        self.location = (new_x, new_y);
        let (b_left, b_right, b_bottom, b_top) = self.get_shift_bounds(None);
        if new_x < b_left || new_x > b_right || new_y < b_bottom || new_y > b_top
            || board.intersects_with(&self.to_common())
        {
            self.location = (old_x, old_y);
            return false;
        }
        true
    }

    /// Moves the piece one column left when it fits there.
    pub fn shift_left(&mut self, board: &Board) -> (moved: bool)
        requires
            old(self).wf(),
        ensures
            c4w_shift_post(board.matrix@, *old(self), *final(self), moved, -1, 0),
    {
        proof {
            lemma_location_bounds_range(self.piece_type.index(), self.rotation as nat);
        }
        self.shift((-1, 0), board)
    }

    /// Moves the piece one column right when it fits there.
    pub fn shift_right(&mut self, board: &Board) -> (moved: bool)
        requires
            old(self).wf(),
        ensures
            c4w_shift_post(board.matrix@, *old(self), *final(self), moved, 1, 0),
    {
        proof {
            lemma_location_bounds_range(self.piece_type.index(), self.rotation as nat);
        }
        self.shift((1, 0), board)
    }

    /// Moves the piece one row down when it fits there.
    pub fn shift_down(&mut self, board: &Board) -> (moved: bool)
        requires
            old(self).wf(),
        ensures
            c4w_shift_post(board.matrix@, *old(self), *final(self), moved, 0, -1),
    {
        proof {
            lemma_location_bounds_range(self.piece_type.index(), self.rotation as nat);
        }
        self.shift((0, -1), board)
    }

    /// Drops the piece straight down until it rests on the stack or the
    /// floor; reports whether it moved.
    pub fn soft_drop(&mut self, board: &Board) -> (moved: bool)
        requires
            old(self).wf(),
            board.wf(),
        ensures
            c4w_drop_post(board.matrix@, *old(self), *final(self), moved),
    {
        let mut p = self.to_common();
        p.soft_drop(board);
        proof {
            lemma_location_bounds_range(self.piece_type.index(), self.rotation as nat);
        }
        let moved = (p.location.1 as i32) != self.location.1;
        self.location = (p.location.0 as i32, p.location.1 as i32);
        moved
    }

    /// Makes one move of the piece on the board.
    pub fn make_move(&mut self, board: &Board, piece_move: &PieceMove) -> (moved: bool)
        requires
            old(self).wf(),
            board.wf(),
        ensures
            c4w_move_post(board.matrix@, *old(self), *final(self), moved, *piece_move),
    {
        match piece_move {
            PieceMove::ShiftLeft => self.shift_left(board),
            PieceMove::ShiftRight => self.shift_right(board),
            PieceMove::RotateLeft => self.rotate_left(board),
            PieceMove::RotateRight => self.rotate_right(board),
            PieceMove::Rotate180 => self.rotate_180(board),
            PieceMove::SoftDrop => self.soft_drop(board),
        }
    }
}

/// The moves of a piece.
#[derive(Clone, Copy, Debug, PartialEq, Eq, Structural)]
pub enum PieceMove {
    ShiftLeft,
    ShiftRight,
    RotateLeft,
    RotateRight,
    Rotate180,
    SoftDrop,
}

impl PieceMove {
    /// The name of the move.
    pub fn to_string(&self) -> (s: String)
        ensures
            s@ == match self {
                PieceMove::ShiftLeft => "shiftLeft"@,
                PieceMove::ShiftRight => "shiftRight"@,
                PieceMove::RotateLeft => "rotateLeft"@,
                PieceMove::RotateRight => "rotateRight"@,
                PieceMove::Rotate180 => "rotate180"@,
                PieceMove::SoftDrop => "softDrop"@,
            },
    {
        let slice = match self {
            PieceMove::ShiftLeft => "shiftLeft",
            PieceMove::ShiftRight => "shiftRight",
            PieceMove::RotateLeft => "rotateLeft",
            PieceMove::RotateRight => "rotateRight",
            PieceMove::Rotate180 => "rotate180",
            PieceMove::SoftDrop => "softDrop",
        };
        String::from_str(slice)
    }

    /// The game move that makes this move.
    pub fn to_game_move(&self) -> (m: GameMove)
        ensures
            m == match self {
                PieceMove::ShiftLeft => GameMove::ShiftLeft,
                PieceMove::ShiftRight => GameMove::ShiftRight,
                PieceMove::RotateLeft => GameMove::RotateLeft,
                PieceMove::RotateRight => GameMove::RotateRight,
                PieceMove::Rotate180 => GameMove::Rotate180,
                PieceMove::SoftDrop => GameMove::SoftDrop,
            },
    {
        match self {
            PieceMove::ShiftLeft => GameMove::ShiftLeft,
            PieceMove::ShiftRight => GameMove::ShiftRight,
            PieceMove::RotateLeft => GameMove::RotateLeft,
            PieceMove::RotateRight => GameMove::RotateRight,
            PieceMove::Rotate180 => GameMove::Rotate180,
            PieceMove::SoftDrop => GameMove::SoftDrop,
        }
    }
}

} // verus!

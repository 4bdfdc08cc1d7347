//! The request and the moves that bots exchange with their front end.
use vstd::prelude::*;
use crate::bits::{has_bit, lemma_bit_or_single, lemma_zero_has_no_bit};
use crate::common::game::GameMove;

verus! {

/// A request to a bot: the current piece, the held piece and the queue as
/// piece numbers, and the twenty visible rows of the board.
#[derive(Debug)]
pub struct APIRequest {
    pub current: i32,
    pub hold: Option<i32>,
    pub queue: Vec<i32>,
    pub matrix: [u16; 20],
}

/// An error a bot reports.
#[derive(Debug)]
pub struct APIError(pub String);

impl APIError {
    /// The error of an unknown cause.
    pub fn unknown() -> (e: Self)
        ensures
            e.0@ == "Unknown error"@,
    {
        proof {
            reveal_strlit("Unknown error");
        }
        APIError(String::from_str("Unknown error"))
    }

    /// The error with the given message.
    pub fn from_str(err: &str) -> (e: Self)
        ensures
            e.0@ == err@,
    {
        APIError(String::from_str(err))
    }
}

/// A move a bot asks for.
#[derive(Debug, PartialEq, Eq, Clone, Copy, Structural)]
pub enum APIMove {
    ShiftLeft,
    ShiftRight,
    RotateLeft,
    RotateRight,
    Rotate180,
    Hold,
    SoftDrop,
    HardDrop,
}

/// The name of each move.
pub open spec fn api_move_name(m: APIMove) -> Seq<char> {
    match m {
        APIMove::ShiftLeft => "shiftLeft"@,
        APIMove::ShiftRight => "shiftRight"@,
        APIMove::RotateLeft => "rotateLeft"@,
        APIMove::RotateRight => "rotateRight"@,
        APIMove::Rotate180 => "rotate180"@,
        APIMove::Hold => "hold"@,
        APIMove::SoftDrop => "softDrop"@,
        APIMove::HardDrop => "hardDrop"@,
    }
}

impl APIMove {
    /// The name of the move.
    pub fn to_string(&self) -> (s: String)
        ensures
            s@ == api_move_name(*self),
    {
        let slice = match self {
            APIMove::ShiftLeft => "shiftLeft",
            APIMove::ShiftRight => "shiftRight",
            APIMove::RotateLeft => "rotateLeft",
            APIMove::RotateRight => "rotateRight",
            APIMove::Rotate180 => "rotate180",
            APIMove::Hold => "hold",
            APIMove::SoftDrop => "softDrop",
            APIMove::HardDrop => "hardDrop",
        };
        String::from_str(slice)
    }

    /// The move a bot asks for to make game move `m`.
    pub fn from_game_move(m: &GameMove) -> (a: Self)
        ensures
            api_move_name(a) == crate::common::game::game_move_name(*m),
    {
        match m {
            GameMove::ShiftLeft => APIMove::ShiftLeft,
            GameMove::ShiftRight => APIMove::ShiftRight,
            GameMove::RotateLeft => APIMove::RotateLeft,
            GameMove::RotateRight => APIMove::RotateRight,
            GameMove::Rotate180 => APIMove::Rotate180,
            GameMove::Hold => APIMove::Hold,
            GameMove::SoftDrop => APIMove::SoftDrop,
            GameMove::HardDrop => APIMove::HardDrop,
        }
    }
}

/// A board given as ten columns of twenty cells each.
pub open spec fn request_dims_ok(matrix: Seq<Vec<bool>>) -> bool {
    &&& matrix.len() == 10
    &&& forall|i: int| 0 <= i < 10 ==> (#[trigger] matrix[i])@.len() == 20
}

impl APIRequest {
    /// The request made of the given fields, the board given as ten columns
    /// of cells, bottom first; a board of other dimensions is refused with
    /// the message "Invalid matrix size".
    pub fn from_fields(current: i32, hold: Option<i32>, queue: Vec<i32>, matrix: Vec<Vec<bool>>) -> (res:
        Result<APIRequest, String>)
        ensures
            !request_dims_ok(matrix@) ==> (res matches Err(e) && e@ == "Invalid matrix size"@),
            request_dims_ok(matrix@) ==> (res matches Ok(r) && r.current == current && r.hold == hold
                && r.queue@ == queue@ && forall|x: int, y: int|
                0 <= x < 16 && 0 <= y < 20 ==> #[trigger] has_bit(r.matrix[y], x) == (x < 10 && y
                    < matrix@[x]@.len() && matrix@[x]@[y])),
    {
        let mut all_twenty = matrix.len() == 10;
        let mut c: usize = 0;
        while all_twenty && c < 10
            invariant
                c <= 10,
                all_twenty ==> matrix@.len() == 10 && forall|d: int| 0 <= d < c ==> (#[trigger] matrix@[d])@.len() == 20,
                !all_twenty ==> !request_dims_ok(matrix@),
            decreases 10 - c,
        {
            if matrix[c].len() != 20 {
                all_twenty = false;
            }
            c += 1;
        }
        if !all_twenty {
            proof {
                reveal_strlit("Invalid matrix size");
            }
            return Err(String::from_str("Invalid matrix size"));
        }
        let mut rows: [u16; 20] = [0; 20];
        proof {
            assert forall|x: int, y: int| 0 <= x < 16 && 0 <= y < 20 implies !has_bit(rows[y], x) by {
                lemma_zero_has_no_bit(x as u16);
            }
        }
        let mut i: usize = 0;
        while i < 10
            invariant
                0 <= i <= 10,
                matrix@.len() == 10,
                forall|c: int| 0 <= c < 10 ==> (#[trigger] matrix@[c])@.len() == 20,
                forall|x: int, y: int|
                    0 <= x < 16 && 0 <= y < 20 ==> #[trigger] has_bit(rows[y], x) == (x < i && y
                        < matrix@[x]@.len() && matrix@[x]@[y]),
            decreases 10 - i,
        {
            let col = &matrix[i];
            let mut j: usize = 0;
            while j < col.len()
                invariant
                    0 <= i < 10,
                    0 <= j <= col@.len(),
                    col@.len() == 20,
                    *col == matrix@[i as int],
                    matrix@.len() == 10,
                    forall|x: int, y: int|
                        0 <= x < 16 && 0 <= y < 20 ==> #[trigger] has_bit(rows[y], x) == ((x < i && y
                            < matrix@[x]@.len() && matrix@[x]@[y]) || (x == i && y < j && col@[y])),
                decreases col@.len() - j,
            {
                if col[j] {
                    let ghost before = rows;
                    rows[j] = rows[j] | (1u16 << (i as u16));
                    proof {
                        assert forall|x: int, y: int| 0 <= x < 16 && 0 <= y < 20 implies #[trigger] has_bit(
                            rows[y],
                            x,
                        ) == ((x < i && y < matrix@[x]@.len() && matrix@[x]@[y]) || (x == i && y < j
                            + 1 && col@[y])) by {
                            if y == j {
                                lemma_bit_or_single(before[y], i as u16, x as u16);
                            } else {
                                assert(rows[y] == before[y]);
                            }
                        }
                    }
                }
                j += 1;
            }
            i += 1;
        }
        Ok(APIRequest { current, hold, queue, matrix: rows })
    }
}

} // verus!

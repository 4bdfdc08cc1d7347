//! A game: a board, the falling piece, the held piece and the queue.
use vstd::prelude::*;
use std::collections::VecDeque;
use vstd::std_specs::vecdeque::VecDequeAdditionalSpecFns;
use crate::common::board::{Board, BoardLockResult, placed, cleared, full_rows};
use crate::common::piece::{
    Piece,
    PieceMove,
    PieceMoveRes,
    PieceType,
    spawn_piece,
    step_down,
    dropped,
    piece_move_post,
    shift_post,
    drop_post,
};

verus! {

/// Result of a hard drop.
#[derive(Debug)]
pub struct GameDropRes {
    pub lines_cleared: i32,
    pub top_out: bool,
}

/// Result of a move of the game.
pub enum GameMoveRes {
    SuccessNorm,
    SuccessDrop(GameDropRes),
    Failed,
}

/// The moves a player can make.
#[derive(Debug, PartialEq, Eq, Clone, Copy, Structural)]
pub enum GameMove {
    ShiftLeft,
    ShiftRight,
    RotateLeft,
    RotateRight,
    Rotate180,
    Hold,
    SoftDrop,
    HardDrop,
}

/// The name of each game move.
pub open spec fn game_move_name(m: GameMove) -> Seq<char> {
    match m {
        GameMove::ShiftLeft => "shiftLeft"@,
        GameMove::ShiftRight => "shiftRight"@,
        GameMove::RotateLeft => "rotateLeft"@,
        GameMove::RotateRight => "rotateRight"@,
        GameMove::Rotate180 => "rotate180"@,
        GameMove::Hold => "hold"@,
        GameMove::SoftDrop => "softDrop"@,
        GameMove::HardDrop => "hardDrop"@,
    }
}

/// The game move that makes the same move as a piece move.
pub open spec fn game_move_of(m: PieceMove) -> GameMove {
    match m {
        PieceMove::ShiftLeft => GameMove::ShiftLeft,
        PieceMove::ShiftRight => GameMove::ShiftRight,
        PieceMove::RotateLeft => GameMove::RotateLeft,
        PieceMove::RotateRight => GameMove::RotateRight,
        PieceMove::Rotate180 => GameMove::Rotate180,
        PieceMove::SoftDrop => GameMove::SoftDrop,
    }
}

impl GameMove {
    /// The name of the move.
    pub fn to_string(&self) -> (s: String)
        ensures
            s@ == game_move_name(*self),
    {
        let slice = match self {
            GameMove::ShiftLeft => "shiftLeft",
            GameMove::ShiftRight => "shiftRight",
            GameMove::RotateLeft => "rotateLeft",
            GameMove::RotateRight => "rotateRight",
            GameMove::Rotate180 => "rotate180",
            GameMove::Hold => "hold",
            GameMove::SoftDrop => "softDrop",
            GameMove::HardDrop => "hardDrop",
        };
        String::from_str(slice)
    }
}

impl From<PieceMove> for GameMove {
    fn from(piece_move: PieceMove) -> (game_move: GameMove) {
        match piece_move {
            PieceMove::ShiftLeft => GameMove::ShiftLeft,
            PieceMove::ShiftRight => GameMove::ShiftRight,
            PieceMove::RotateLeft => GameMove::RotateLeft,
            PieceMove::RotateRight => GameMove::RotateRight,
            PieceMove::Rotate180 => GameMove::Rotate180,
            PieceMove::SoftDrop => GameMove::SoftDrop,
        }
    }
}

impl vstd::std_specs::convert::FromSpecImpl<PieceMove> for GameMove {
    open spec fn obeys_from_spec() -> bool {
        true
    }

    open spec fn from_spec(piece_move: PieceMove) -> GameMove {
        game_move_of(piece_move)
    }
}

/// The state of a game.
#[derive(Clone, Debug, Eq)]
pub struct Game {
    pub board: Board,
    pub current_piece: Piece,
    pub hold_piece: Option<PieceType>,
    pub queue_pieces: VecDeque<PieceType>,
    pub can_hold: bool,
}

// The compared parts are hashed: the board's matrix, the falling piece's
// type, the held piece and the queue.
impl core::hash::Hash for Game {
    fn hash<H: core::hash::Hasher>(&self, state: &mut H) {
        self.board.hash(state);
        self.current_piece.hash(state);
        let hold: u64 = match self.hold_piece {
            Some(t) => t.to_i32() as u64 + 1,
            None => 0,
        };
        hold.hash(state);
        (self.queue_pieces.len() as u64).hash(state);
        let mut k: usize = 0;
        while k < self.queue_pieces.len()
            decreases self.queue_pieces@.len() - k,
        {
            (self.queue_pieces[k].to_i32() as u64).hash(state);
            k += 1;
        }
    }
}

impl Game {
    /// The board's metadata is right and the current piece lies within its
    /// bounds.
    pub open spec fn wf(&self) -> bool {
        &&& self.board.wf()
        &&& self.current_piece.wf()
    }

    /// An empty board, an O piece falling, nothing held and an empty queue.
    pub fn new() -> (game: Self)
        ensures
            game.wf(),
            forall|y: int| 0 <= y < 24 ==> game.board.matrix[y] == 0,
            game.current_piece == spawn_piece(PieceType::O),
            game.hold_piece is None,
            game.queue_pieces@ == Seq::<PieceType>::empty(),
            game.can_hold,
    {
        Game {
            board: Board::new(),
            current_piece: Piece::new(&PieceType::O),
            hold_piece: None,
            queue_pieces: VecDeque::new(),
            can_hold: true,
        }
    }

    /// Makes `piece` the falling piece, back at its spawn location.
    pub fn set_current(&mut self, piece: PieceType)
        requires
            old(self).board.wf(),
        ensures
            final(self).current_piece == step_down(old(self).board.matrix@, spawn_piece(piece)),
            final(self).board == old(self).board,
            final(self).hold_piece == old(self).hold_piece,
            final(self).queue_pieces@ == old(self).queue_pieces@,
            final(self).can_hold,
            final(self).wf(),
    {
        self.current_piece.piece_type = piece;
        self.reset_current_piece();
        self.can_hold = true;
    }

    /// Makes `piece` the held piece.
    pub fn set_hold(&mut self, piece: Option<PieceType>)
        ensures
            final(self).hold_piece == piece,
            final(self).can_hold,
            final(self).board == old(self).board,
            final(self).current_piece == old(self).current_piece,
            final(self).queue_pieces@ == old(self).queue_pieces@,
    {
        self.hold_piece = piece;
        self.can_hold = true;
    }

    /// Adds a piece at the end of the queue.
    pub fn append_queue(&mut self, piece: PieceType)
        ensures
            final(self).queue_pieces@ == old(self).queue_pieces@.push(piece),
            final(self).board == old(self).board,
            final(self).current_piece == old(self).current_piece,
            final(self).hold_piece == old(self).hold_piece,
            final(self).can_hold == old(self).can_hold,
    {
        self.queue_pieces.push_back(piece);
    }

    /// Adds pieces at the end of the queue, in order.
    pub fn extend_queue(&mut self, pieces: &[PieceType])
        ensures
            final(self).queue_pieces@ == old(self).queue_pieces@ + pieces@,
            final(self).board == old(self).board,
            final(self).current_piece == old(self).current_piece,
            final(self).hold_piece == old(self).hold_piece,
            final(self).can_hold == old(self).can_hold,
    {
        let mut i: usize = 0;
        while i < pieces.len()
            invariant
                i <= pieces@.len(),
                self.queue_pieces@ == old(self).queue_pieces@ + pieces@.subrange(0, i as int),
                self.board == old(self).board,
                self.current_piece == old(self).current_piece,
                self.hold_piece == old(self).hold_piece,
                self.can_hold == old(self).can_hold,
            decreases pieces@.len() - i,
        {
            self.queue_pieces.push_back(pieces[i]);
            assert(pieces@.subrange(0, i + 1) == pieces@.subrange(0, i as int).push(pieces@[i as int]));
            i += 1;
        }
        assert(pieces@.subrange(0, pieces@.len() as int) == pieces@);
    }

    /// Empties the queue.
    pub fn clear_queue(&mut self)
        ensures
            final(self).queue_pieces@ == Seq::<PieceType>::empty(),
            final(self).board == old(self).board,
            final(self).current_piece == old(self).current_piece,
            final(self).hold_piece == old(self).hold_piece,
            final(self).can_hold == old(self).can_hold,
    {
        self.queue_pieces.clear();
    }

    /// Replaces the queue by `pieces`.
    pub fn set_queue(&mut self, pieces: &[PieceType])
        ensures
            final(self).queue_pieces@ == pieces@,
            final(self).board == old(self).board,
            final(self).current_piece == old(self).current_piece,
            final(self).hold_piece == old(self).hold_piece,
            final(self).can_hold == old(self).can_hold,
    {
        self.clear_queue();
        self.extend_queue(pieces);
        assert(Seq::<PieceType>::empty() + pieces@ == pieces@);
    }

    /// Puts the falling piece back at its spawn location, one row lower when
    /// it fits there.
    pub fn reset_current_piece(&mut self)
        requires
            old(self).board.wf(),
        ensures
            final(self).current_piece == step_down(
                old(self).board.matrix@,
                spawn_piece(old(self).current_piece.piece_type),
            ),
            final(self).board == old(self).board,
            final(self).hold_piece == old(self).hold_piece,
            final(self).queue_pieces@ == old(self).queue_pieces@,
            final(self).can_hold == old(self).can_hold,
            final(self).wf(),
    {
        self.current_piece.reset();
        self.current_piece.shift_down(&self.board);
    }
}

/// The piece move that a game move makes, for the moves of the falling
/// piece.
pub open spec fn piece_move_of(m: GameMove) -> Option<PieceMove> {
    match m {
        GameMove::ShiftLeft => Some(PieceMove::ShiftLeft),
        GameMove::ShiftRight => Some(PieceMove::ShiftRight),
        GameMove::RotateLeft => Some(PieceMove::RotateLeft),
        GameMove::RotateRight => Some(PieceMove::RotateRight),
        GameMove::Rotate180 => Some(PieceMove::Rotate180),
        GameMove::SoftDrop => Some(PieceMove::SoftDrop),
        _ => None,
    }
}

/// `new` is `old` with nothing changed.
pub open spec fn same_game(old: Game, new: Game) -> bool {
    &&& new.board == old.board
    &&& new.current_piece == old.current_piece
    &&& new.hold_piece == old.hold_piece
    &&& new.queue_pieces@ == old.queue_pieces@
    &&& new.can_hold == old.can_hold
}

/// The outcome of game move `mv` on `old`.
pub open spec fn game_move_post(old: Game, new: Game, res: GameMoveRes, mv: GameMove) -> bool {
    let m = old.board.matrix@;
    match mv {
        GameMove::Hold => if !old.can_hold || (old.hold_piece is None && old.queue_pieces@.len()
            == 0) {
            res is Failed && same_game(old, new)
        } else {
            let next = match old.hold_piece {
                Some(h) => h,
                None => old.queue_pieces@[0],
            };
            &&& res is SuccessNorm
            &&& new.board == old.board
            &&& new.hold_piece == Some(old.current_piece.piece_type)
            &&& new.current_piece == step_down(m, spawn_piece(next))
            &&& new.queue_pieces@ == if old.hold_piece is None {
                old.queue_pieces@.drop_first()
            } else {
                old.queue_pieces@
            }
            &&& new.can_hold == old.can_hold
        },
        GameMove::HardDrop => if old.queue_pieces@.len() == 0 {
            res is Failed && same_game(old, new)
        } else {
            let p1 = dropped(m, old.current_piece);
            let m1 = placed(
                m,
                p1.piece_type.index(),
                p1.rotation as nat,
                p1.location.0 as int,
                p1.location.1 as int,
            );
            let m2 = cleared(m1);
            &&& res matches GameMoveRes::SuccessDrop(d)
            &&& d.lines_cleared == full_rows(m1)
            &&& d.top_out == exists|j: int| 20 <= j < 24 && m2[j] != 0
            &&& new.board.matrix@ == m2
            &&& new.current_piece == step_down(m2, step_down(m2, spawn_piece(old.queue_pieces@[0])))
            &&& new.hold_piece == old.hold_piece
            &&& new.queue_pieces@ == old.queue_pieces@.drop_first()
            &&& new.can_hold
        },
        _ => {
            &&& res is SuccessNorm || res is Failed
            &&& piece_move_post(
                m,
                old.current_piece,
                new.current_piece,
                if res is SuccessNorm {
                    PieceMoveRes::Success
                } else {
                    PieceMoveRes::Failed
                },
                piece_move_of(mv).unwrap(),
            )
            &&& new.board == old.board
            &&& new.hold_piece == old.hold_piece
            &&& new.queue_pieces@ == old.queue_pieces@
            &&& new.can_hold == old.can_hold
        },
    }
}

fn norm_res(res: PieceMoveRes) -> (out: GameMoveRes)
    ensures
        res is Success ==> out is SuccessNorm,
        res is Failed ==> out is Failed,
{
    match res {
        PieceMoveRes::Success => GameMoveRes::SuccessNorm,
        PieceMoveRes::Failed => GameMoveRes::Failed,
    }
}

impl Game {
    /// A copy of the game, field by field.
    pub(crate) fn duplicate(&self) -> (g: Self)
        ensures
            g.board == self.board,
            g.current_piece == self.current_piece,
            g.hold_piece == self.hold_piece,
            g.queue_pieces@ == self.queue_pieces@,
            g.can_hold == self.can_hold,
    {
        let queue_pieces = self.queue_pieces.clone();
        proof {
            assert forall|i: int| 0 <= i < self.queue_pieces@.len() implies queue_pieces@[i] == self.queue_pieces@[i] by {
                assert(cloned::<PieceType>(self.queue_pieces[i], queue_pieces[i]));
            }
            assert(queue_pieces@ =~= self.queue_pieces@);
        }
        Game {
            board: Board {
                matrix: self.board.matrix,
                height_map: self.board.height_map,
                holes: self.board.holes,
            },
            current_piece: self.current_piece,
            hold_piece: self.hold_piece,
            queue_pieces,
            can_hold: self.can_hold,
        }
    }
}

impl Game {
    /// Makes one move.
    pub fn make_move(&mut self, game_move: &GameMove) -> (res: GameMoveRes)
        requires
            old(self).wf(),
        ensures
            game_move_post(*old(self), *final(self), res, *game_move),
            final(self).wf(),
    {
        match game_move {
            GameMove::ShiftLeft => {
                let res = self.current_piece.shift_left(&self.board);
                norm_res(res)
            },
            GameMove::ShiftRight => {
                let res = self.current_piece.shift_right(&self.board);
                norm_res(res)
            },
            GameMove::RotateLeft => {
                let res = self.current_piece.rotate_left(&self.board);
                norm_res(res)
            },
            GameMove::RotateRight => {
                let res = self.current_piece.rotate_right(&self.board);
                norm_res(res)
            },
            GameMove::Rotate180 => {
                let res = self.current_piece.rotate_180(&self.board);
                norm_res(res)
            },
            GameMove::Hold => {
                if !self.can_hold {
                    return GameMoveRes::Failed;
                }
                let hold = match self.hold_piece {
                    Some(hold) => hold,
                    None => match self.queue_pieces.pop_front() {
                        Some(piece) => piece,
                        None => return GameMoveRes::Failed,
                    },
                };
                self.hold_piece = Some(self.current_piece.piece_type);
                self.current_piece.piece_type = hold;
                self.reset_current_piece();
                GameMoveRes::SuccessNorm
            },
            GameMove::SoftDrop => {
                let res = self.current_piece.soft_drop(&self.board);
                norm_res(res)
            },
            GameMove::HardDrop => {
                if self.queue_pieces.len() == 0 {
                    return GameMoveRes::Failed;
                }
                self.current_piece.soft_drop(&self.board);
                let res = self.board.lock(&self.current_piece);
                match self.queue_pieces.pop_front() {
                    Some(next) => {
                        self.current_piece.piece_type = next;
                    },
                    None => {},
                }
                self.reset_current_piece();
                self.current_piece.shift_down(&self.board);
                self.can_hold = true;

                GameMoveRes::SuccessDrop(
                    GameDropRes { lines_cleared: res.lines_cleared, top_out: res.top_out },
                )
            },
        }
    }
}

// The board's matrix, the current piece's type, the held piece and the
// queue are compared.
impl PartialEq for Game {
    fn eq(&self, other: &Self) -> (same: bool) {
        if !(self.board == other.board) {
            return false;
        }
        if self.current_piece.piece_type != other.current_piece.piece_type {
            return false;
        }
        let same_hold = match (self.hold_piece, other.hold_piece) {
            (Some(a), Some(b)) => a == b,
            (None, None) => true,
            _ => false,
        };
        if !same_hold {
            return false;
        }
        if self.queue_pieces.len() != other.queue_pieces.len() {
            return false;
        }
        let mut i: usize = 0;
        while i < self.queue_pieces.len()
            invariant
                self.queue_pieces@.len() == other.queue_pieces@.len(),
                i <= self.queue_pieces@.len(),
                forall|k: int| 0 <= k < i ==> self.queue_pieces@[k] == other.queue_pieces@[k],
            decreases self.queue_pieces@.len() - i,
        {
            if self.queue_pieces[i] != other.queue_pieces[i] {
                return false;
            }
            i += 1;
        }
        assert(self.queue_pieces@ =~= other.queue_pieces@);
        true
    }
}

impl vstd::std_specs::cmp::PartialEqSpecImpl for Game {
    open spec fn obeys_eq_spec() -> bool {
        true
    }

    open spec fn eq_spec(&self, other: &Self) -> bool {
        &&& self.board.matrix@ == other.board.matrix@
        &&& self.current_piece.piece_type == other.current_piece.piece_type
        &&& self.hold_piece == other.hold_piece
        &&& self.queue_pieces@ == other.queue_pieces@
    }
}

} // verus!

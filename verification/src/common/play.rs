//! Moves of the shared game as functions of the game's state: the piece
//! and game moves give one outcome each.
use vstd::prelude::*;
use vstd::std_specs::vecdeque::VecDequeAdditionalSpecFns;
use crate::common::board::{cleared, full_rows, placed};
use crate::common::computed::kick_table;
use crate::common::game::{Game, GameDropRes, GameMove, GameMoveRes, game_move_post, piece_move_of};
use crate::common::piece::{
    above_stack,
    drop_y,
    dropped,
    first_fit,
    fits,
    spawn_piece,
    step_down,
    Piece,
    PieceMove,
    PieceMoveRes,
    PieceType,
};

verus! {

/// Where piece `p` is after move `mv` on a board with matrix `m`, and
/// whether the move succeeds.
pub open spec fn piece_step(m: Seq<u16>, p: Piece, mv: PieceMove) -> (Piece, bool) {
    let t = p.piece_type.index();
    let r = p.rotation as nat;
    let x = p.location.0 as int;
    let y = p.location.1 as int;
    match mv {
        PieceMove::ShiftLeft => if fits(m, t, r, x - 1, y) {
            (Piece { location: ((x - 1) as i8, p.location.1), ..p }, true)
        } else {
            (p, false)
        },
        PieceMove::ShiftRight => if fits(m, t, r, x + 1, y) {
            (Piece { location: ((x + 1) as i8, p.location.1), ..p }, true)
        } else {
            (p, false)
        },
        PieceMove::RotateLeft => piece_turn(m, p, 3),
        PieceMove::RotateRight => piece_turn(m, p, 1),
        PieceMove::Rotate180 => piece_turn(m, p, 2),
        PieceMove::SoftDrop => (dropped(m, p), above_stack(m, t, r, x, y) && drop_y(m, t, r, x, y) != y),
    }
}

/// Piece `p` turned by `amount` quarter turns with the first wall kick
/// that fits, and whether one does.
pub open spec fn piece_turn(m: Seq<u16>, p: Piece, amount: int) -> (Piece, bool) {
    let t = p.piece_type.index();
    let new_rot = (p.rotation + amount) % 4;
    let kicks = kick_table(t, p.rotation as int, new_rot);
    match first_fit(m, t, new_rot as nat, p.location.0 as int, p.location.1 as int, kicks, 0) {
        Some(k) => (
            Piece {
                piece_type: p.piece_type,
                rotation: new_rot as i8,
                location: ((p.location.0 + kicks[k].0) as i8, (p.location.1 + kicks[k].1) as i8),
            },
            true,
        ),
        None => (p, false),
    }
}

/// The state of a game that its moves read and change: the cells of the
/// board, the falling piece, the held piece, the queue and whether a hold
/// is allowed.
pub struct GameView {
    pub matrix: Seq<u16>,
    pub current: Piece,
    pub hold: Option<PieceType>,
    pub queue: Seq<PieceType>,
    pub can_hold: bool,
}

/// The state of game `g` that its moves read and change.
pub open spec fn game_view(g: Game) -> GameView {
    GameView {
        matrix: g.board.matrix@,
        current: g.current_piece,
        hold: g.hold_piece,
        queue: g.queue_pieces@,
        can_hold: g.can_hold,
    }
}

/// The state after game move `mv` from state `v`, and the move's result.
pub open spec fn game_step(v: GameView, mv: GameMove) -> (GameView, GameMoveRes) {
    let m = v.matrix;
    match mv {
        GameMove::Hold => if !v.can_hold || (v.hold is None && v.queue.len() == 0) {
            (v, GameMoveRes::Failed)
        } else {
            let next = match v.hold {
                Some(h) => h,
                None => v.queue[0],
            };
            (
                GameView {
                    current: step_down(m, spawn_piece(next)),
                    hold: Some(v.current.piece_type),
                    queue: if v.hold is None {
                        v.queue.drop_first()
                    } else {
                        v.queue
                    },
                    ..v
                },
                GameMoveRes::SuccessNorm,
            )
        },
        GameMove::HardDrop => if v.queue.len() == 0 {
            (v, GameMoveRes::Failed)
        } else {
            let p1 = dropped(m, v.current);
            let m1 = placed(m, p1.piece_type.index(), p1.rotation as nat, p1.location.0 as int, p1.location.1 as int);
            let m2 = cleared(m1);
            (
                GameView {
                    matrix: m2,
                    current: step_down(m2, step_down(m2, spawn_piece(v.queue[0]))),
                    hold: v.hold,
                    queue: v.queue.drop_first(),
                    can_hold: true,
                },
                GameMoveRes::SuccessDrop(
                    GameDropRes {
                        lines_cleared: full_rows(m1) as i32,
                        top_out: exists|j: int| 20 <= j < 24 && m2[j] != 0,
                    },
                ),
            )
        },
        _ => {
            let (p, ok) = piece_step(m, v.current, piece_move_of(mv).unwrap());
            (GameView { current: p, ..v }, if ok {
                GameMoveRes::SuccessNorm
            } else {
                GameMoveRes::Failed
            })
        },
    }
}

/// The state after the moves `moves` from state `v`, in order.
pub open spec fn game_run(v: GameView, moves: Seq<GameMove>) -> GameView
    decreases moves.len(),
{
    if moves.len() == 0 {
        v
    } else {
        game_run(game_step(v, moves[0]).0, moves.drop_first())
    }
}

/// A game move's outcome is the step it names.
pub proof fn lemma_game_move_step(old: Game, new: Game, res: GameMoveRes, mv: GameMove)
    requires
        old.wf(),
        game_move_post(old, new, res, mv),
    ensures
        (game_view(new), res) == game_step(game_view(old), mv),
{
    match mv {
        GameMove::HardDrop => {
            if old.queue_pieces@.len() != 0 {
                let m = old.board.matrix@;
                let p1 = dropped(m, old.current_piece);
                let m1 = placed(m, p1.piece_type.index(), p1.rotation as nat, p1.location.0 as int, p1.location.1 as int);
                crate::common::board::lemma_non_full_len(m1);
                assert(0 <= full_rows(m1) <= m1.len());
            }
        },
        GameMove::Hold => {},
        _ => {},
    }
}

/// Running the moves `moves` then one more move is the step after the run.
pub proof fn lemma_game_run_push(v: GameView, moves: Seq<GameMove>, mv: GameMove)
    ensures
        game_run(v, moves.push(mv)) == game_step(game_run(v, moves), mv).0,
    decreases moves.len(),
{
    if moves.len() == 0 {
        assert(moves.push(mv).drop_first() =~= Seq::<GameMove>::empty());
        assert(moves.push(mv)[0] == mv);
        assert(game_run(game_step(v, mv).0, Seq::<GameMove>::empty()) == game_step(v, mv).0);
    } else {
        assert(moves.push(mv).drop_first() =~= moves.drop_first().push(mv));
        assert(moves.push(mv)[0] == moves[0]);
        lemma_game_run_push(game_step(v, moves[0]).0, moves.drop_first(), mv);
    }
}

} // verus!

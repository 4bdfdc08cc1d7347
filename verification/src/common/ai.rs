//! The simplest bot, which hard-drops the falling piece where it is, and
//! what a watched game of any bot needs: bags of pieces and playing the
//! moves a bot picked.
use vstd::prelude::*;
use crate::common::game::{Game, GameMove, GameMoveRes};
use crate::common::play::{GameView, game_step, game_view, lemma_game_move_step};
use crate::common::piece::{PieceType, piece_type_of};

verus! {

/// A bot that hard-drops the falling piece.
pub struct DummyAI;

impl DummyAI {
    /// The bot.
    pub fn new() -> (ai: Self) {
        DummyAI
    }

    /// The moves the bot plays on `game`: a hard drop, when the game can
    /// make one (which it tries on a copy of the game), or none.
    pub fn hard_drop_moves(&self, game: &Game) -> (moves: Option<Vec<GameMove>>)
        requires
            game.wf(),
        ensures
            game.queue_pieces@.len() == 0 <==> moves is None,
            moves matches Some(v) ==> v@ == seq![GameMove::HardDrop],
    {
        let mut copy = game.duplicate();
        match copy.make_move(&GameMove::HardDrop) {
            GameMoveRes::SuccessDrop(_) => Some(vec![GameMove::HardDrop]),
            _ => None,
        }
    }
}

/// The bag after the swaps of a seeded shuffle from position `i` down to
/// 1: each swaps position `i` with position `seed % i` and moves the seed
/// on; with the seed at the end.
pub open spec fn shuffle_from(bag: Seq<PieceType>, seed: int, i: int) -> (Seq<PieceType>, int)
    decreases i,
{
    if i < 1 {
        (bag, seed)
    } else {
        let j = seed % i;
        shuffle_from(bag.update(i, bag[j]).update(j, bag[i]), (seed + j + 123) % 456789, i - 1)
    }
}

/// The seven piece types in order.
pub open spec fn all_types() -> Seq<PieceType> {
    Seq::new(7, |i: int| piece_type_of(i))
}

/// The next bag of seven pieces for a watched game: the piece types in
/// order, shuffled by swaps that `seed` picks; the seed moves on.
pub fn gen_bag(seed: &mut i32) -> (bag: Vec<PieceType>)
    requires
        0 <= *old(seed) <= i32::MAX - 129,
    ensures
        (bag@, *final(seed) as int) == shuffle_from(all_types(), *old(seed) as int, 6),
{
    let mut bag = PieceType::iter_types();
    proof {
        assert forall|k: int| 0 <= k < 7 implies bag@[k] == all_types()[k] by {
            crate::common::json::lemma_piece_type_of_index(bag@[k]);
        }
        assert(bag@ =~= all_types());
    }
    let mut i: i32 = 6;
    while i >= 1
        invariant
            0 <= i <= 6,
            bag@.len() == 7,
            0 <= *seed <= i32::MAX - 129,
            shuffle_from(bag@, *seed as int, i as int) == shuffle_from(all_types(), *old(seed) as int, 6),
        decreases i,
    {
        let j = *seed % i;
        let a = bag[i as usize];
        let b = bag[j as usize];
        bag.set(i as usize, b);
        bag.set(j as usize, a);
        *seed = (*seed + j + 123) % 456789;
        i -= 1;
    }
    bag
}

/// The state after the moves `moves` from state `v`, stopping after the
/// first drop that tops out, and whether one did.
pub open spec fn play_until_top_out(v: GameView, moves: Seq<GameMove>) -> (GameView, bool)
    decreases moves.len(),
{
    if moves.len() == 0 {
        (v, false)
    } else {
        let (next, res) = game_step(v, moves[0]);
        if res matches GameMoveRes::SuccessDrop(d) && d.top_out {
            (next, true)
        } else {
            play_until_top_out(next, moves.drop_first())
        }
    }
}

/// Plays the moves a bot picked, in order, until a drop tops out; whether
/// one did.
pub fn play_moves(game: &mut Game, moves: &Vec<GameMove>) -> (top_out: bool)
    requires
        old(game).wf(),
    ensures
        final(game).wf(),
        (game_view(*final(game)), top_out) == play_until_top_out(game_view(*old(game)), moves@),
{
    let ghost goal = play_until_top_out(game_view(*game), moves@);
    assert(moves@.skip(0) =~= moves@);
    let mut k: usize = 0;
    while k < moves.len()
        invariant
            k <= moves@.len(),
            game.wf(),
            play_until_top_out(game_view(*game), moves@.skip(k as int)) == goal,
            goal == play_until_top_out(game_view(*old(game)), moves@),
        decreases moves@.len() - k,
    {
        let ghost before = *game;
        let res = game.make_move(&moves[k]);
        proof {
            lemma_game_move_step(before, *game, res, moves@[k as int]);
            let rest = moves@.skip(k as int);
            assert(rest.len() > 0);
            assert(rest[0] == moves@[k as int]);
            assert(rest.drop_first() =~= moves@.skip(k + 1));
            assert(play_until_top_out(game_view(before), rest) == if res matches GameMoveRes::SuccessDrop(d) && d.top_out {
                (game_view(*game), true)
            } else {
                play_until_top_out(game_view(*game), moves@.skip(k + 1))
            });
        }
        if let GameMoveRes::SuccessDrop(drop_res) = res {
            if drop_res.top_out {
                return true;
            }
        }
        k += 1;
    }
    proof {
        assert(moves@.skip(k as int) =~= Seq::<GameMove>::empty());
    }
    false
}

} // verus!

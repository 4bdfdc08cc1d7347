//! The part of the weight trainer that needs no floating point: shuffling
//! a population or a bag of pieces, and playing and scoring the rounds of a
//! trainee's game.
use vstd::prelude::*;
use rand::rngs::StdRng;
use crate::common::ai::all_types;
use crate::common::game::{Game, GameDropRes, GameMove, GameMoveRes};
use crate::common::json::lemma_piece_type_of_index;
use crate::common::piece::PieceType;
use crate::common::play::{game_run, game_step, game_view, lemma_game_move_step, lemma_game_run_push};
use crate::rusty::game::sample_below_u64;

verus! {

/// Exchanges the items at `a` and `b`.
fn swap_items<T>(arr: &mut Vec<T>, a: usize, b: usize)
    requires
        a < old(arr)@.len(),
        b < old(arr)@.len(),
    ensures
        final(arr)@ == old(arr)@.update(a as int, old(arr)@[b as int]).update(
            b as int,
            old(arr)@[a as int],
        ),
{
    if a == b {
        assert(arr@ =~= arr@.update(a as int, arr@[b as int]).update(b as int, arr@[a as int]));
        return;
    }
    let lo = if a < b { a } else { b };
    let hi = if a < b { b } else { a };
    let ghost s = arr@;
    let high_item = arr.remove(hi);
    let low_item = arr.remove(lo);
    arr.insert(lo, high_item);
    arr.insert(hi, low_item);
    assert(arr@ =~= s.update(a as int, s[b as int]).update(b as int, s[a as int]));
}

/// Writing `v` at `i` takes the old item out of the multiset and puts `v` in.
proof fn lemma_update_multiset<T>(s: Seq<T>, i: int, v: T)
    requires
        0 <= i < s.len(),
    ensures
        s.update(i, v).to_multiset() =~= s.to_multiset().remove(s[i]).insert(v),
{
    broadcast use vstd::seq_lib::group_to_multiset_ensures;

    let t = s.update(i, v);
    assert(t.remove(i) =~= s.remove(i));
    assert(t[i] == v);
    let m = t.to_multiset();
    assert(m.count(v) > 0) by {
        assert(t.contains(v));
    }
    assert(m =~= m.remove(v).insert(v));
}

/// Exchanging two items keeps the multiset of items.
proof fn lemma_swap_multiset<T>(s: Seq<T>, a: int, b: int)
    requires
        0 <= a < s.len(),
        0 <= b < s.len(),
    ensures
        s.update(a, s[b]).update(b, s[a]).to_multiset() =~= s.to_multiset(),
{
    broadcast use vstd::seq_lib::group_to_multiset_ensures;

    let s1 = s.update(a, s[b]);
    lemma_update_multiset(s, a, s[b]);
    lemma_update_multiset(s1, b, s[a]);
    assert(s1[b] == s[b]);
    let m = s.to_multiset();
    assert(m.count(s[a]) > 0) by {
        assert(s.contains(s[a]));
    }
    assert(m.remove(s[a]).insert(s[b]).remove(s[b]).insert(s[a]) =~= m);
}

/// `ks` holds one draw per position, the draw of position `p` at most `p`.
pub open spec fn draws_ok(ks: Seq<usize>, n: int) -> bool {
    &&& ks.len() == n
    &&& forall|p: int| 0 <= p < n ==> #[trigger] ks[p] <= p
}

/// `s` after the Fisher-Yates swaps that the draws `ks` pick, from position
/// `i` down to position 1: position `p` is exchanged with position `ks[p]`.
pub open spec fn swapped_down<T>(s: Seq<T>, ks: Seq<usize>, i: int) -> Seq<T>
    decreases i,
{
    if i < 1 {
        s
    } else {
        let k = ks[i] as int;
        swapped_down(s.update(i, s[k]).update(k, s[i]), ks, i - 1)
    }
}

/// The swaps keep the number of items and the multiset of items.
pub proof fn lemma_swapped_multiset<T>(s: Seq<T>, ks: Seq<usize>, i: int)
    requires
        i < s.len(),
        draws_ok(ks, s.len() as int),
    ensures
        swapped_down(s, ks, i).len() == s.len(),
        swapped_down(s, ks, i).to_multiset() == s.to_multiset(),
    decreases i,
{
    if i >= 1 {
        let k = ks[i] as int;
        lemma_swap_multiset(s, i, k);
        lemma_swapped_multiset(s.update(i, s[k]).update(k, s[i]), ks, i - 1);
    }
}

/// The swaps keep items distinct when they are.
pub proof fn lemma_swapped_distinct<T>(s: Seq<T>, ks: Seq<usize>, i: int)
    requires
        i < s.len(),
        draws_ok(ks, s.len() as int),
        s.no_duplicates(),
    ensures
        swapped_down(s, ks, i).no_duplicates(),
    decreases i,
{
    if i >= 1 {
        let k = ks[i] as int;
        let t = s.update(i, s[k]).update(k, s[i]);
        assert forall|a: int, b: int| 0 <= a < t.len() && 0 <= b < t.len() && a != b implies t[a] != t[b] by {
            let sa = if a == k { i } else if a == i { k } else { a };
            let sb = if b == k { i } else if b == i { k } else { b };
            assert(t[a] == s[sa]);
            assert(t[b] == s[sb]);
        }
        lemma_swapped_distinct(t, ks, i - 1);
    }
}

/// Applies the Fisher-Yates swaps that the draws `ks` pick.
pub fn apply_swaps<T>(items: &mut Vec<T>, ks: &Vec<usize>)
    requires
        draws_ok(ks@, old(items)@.len() as int),
    ensures
        final(items)@ == swapped_down(old(items)@, ks@, old(items)@.len() - 1),
{
    let n = items.len();
    if n < 2 {
        return;
    }
    let mut i: usize = n - 1;
    while i >= 1
        invariant
            i < n,
            items@.len() == n,
            n == old(items)@.len(),
            draws_ok(ks@, n as int),
            swapped_down(items@, ks@, i as int) == swapped_down(old(items)@, ks@, n - 1),
        decreases i,
    {
        let k = ks[i];
        assert(ks@[i as int] <= i);
        swap_items(items, i, k);
        i -= 1;
    }
}

/// Draws of a Fisher-Yates shuffle of `n` items: for each position `p` from
/// `n - 1` down to 1, a number of `0..=p`; the draw of position 0 is 0.
pub fn draw_swaps(n: usize, rng: &mut StdRng) -> (ks: Vec<usize>)
    ensures
        draws_ok(ks@, n as int),
{
    let mut ks: Vec<usize> = Vec::new();
    let mut p: usize = 0;
    while p < n
        invariant
            p <= n,
            ks@.len() == p,
            forall|q: int| 0 <= q < p ==> #[trigger] ks@[q] == 0,
        decreases n - p,
    {
        ks.push(0);
        p += 1;
    }
    if n < 2 {
        return ks;
    }
    let mut i: usize = n - 1;
    while i >= 1
        invariant
            i < n,
            draws_ok(ks@, n as int),
        decreases i,
    {
        let j = sample_below_u64(rng, i as u64 + 1) as usize;
        ks.set(i, j);
        i -= 1;
    }
    ks
}

/// Puts the items in a random order (Fisher-Yates): the order that the
/// swaps of some draws pick, so the same items, each as often as before.
pub fn shuffle<T>(arr: &mut Vec<T>, rng: &mut StdRng)
    ensures
        exists|ks: Seq<usize>| draws_ok(ks, old(arr)@.len() as int) && final(arr)@ == swapped_down(
            old(arr)@,
            ks,
            old(arr)@.len() - 1,
        ),
        final(arr)@.len() == old(arr)@.len(),
        final(arr)@.to_multiset() == old(arr)@.to_multiset(),
{
    let ks = draw_swaps(arr.len(), rng);
    let ghost before = arr@;
    apply_swaps(arr, &ks);
    proof {
        lemma_swapped_multiset(before, ks@, before.len() - 1);
    }
}

/// Rounds of a trainee's game.
pub const AI_GAME_ROUNDS: i32 = 500;
/// Points per round left that a trainee gets when it tops out.
pub const AI_TOP_OUT_WEIGHT: i32 = -2;

/// Points for the lines a drop clears: two lines one, three lines two,
/// four lines four.
pub open spec fn line_points(lines: int) -> int {
    if lines == 2 {
        1
    } else if lines == 3 {
        2
    } else if lines == 4 {
        4
    } else {
        0
    }
}

/// Points of a drop that cleared `lines` lines: twelve more when the
/// board is left empty.
pub open spec fn fitness_points(lines: int, perfect_clear: bool) -> int {
    line_points(lines) + if perfect_clear {
        12int
    } else {
        0int
    }
}

/// The points of a drop for a trainee's fitness, or an error when it
/// cleared a number of lines that no drop can.
pub fn get_drop_res_score(drop_res: &GameDropRes, game: &Game) -> (res: Result<i32, ()>)
    ensures
        res is Ok <==> 0 <= drop_res.lines_cleared <= 4,
        res matches Ok(s) ==> s == fitness_points(
            drop_res.lines_cleared as int,
            game.board.matrix[0] == 0,
        ),
{
    let drop_score: i32 = match drop_res.lines_cleared {
        0 => 0,
        1 => 0,
        2 => 1,
        3 => 2,
        4 => 4,
        _ => return Err(()),
    };
    let perfect_clear_score: i32 = if game.board.matrix[0] == 0 {
        12
    } else {
        0
    };
    Ok(drop_score + perfect_clear_score)
}

/// What one round of a trainee's game came to.
pub enum FitnessStep {
    /// The game goes on.
    Continue,
    /// The trainee topped out, and its fitness is final.
    ToppedOut,
    /// The moves of the evaluation could not be played; why.
    Failed(String),
}

/// Plays the moves of one evaluation of a trainee, the last of which must
/// drop the piece, and adds the drop's points to `score`; when the drop
/// tops out, it also adds `AI_TOP_OUT_WEIGHT` for each of the
/// `rounds_left` rounds.
pub fn play_fitness_round(game: &mut Game, moves: Vec<GameMove>, score: &mut i32, rounds_left: i32) -> (step: FitnessStep)
    requires
        old(game).wf(),
        0 < rounds_left <= AI_GAME_ROUNDS,
        i32::MIN + 2 * AI_GAME_ROUNDS <= *old(score) <= i32::MAX - 16,
    ensures
        final(game).wf(),
        moves@.len() == 0 ==> {
            &&& *final(game) == *old(game)
            &&& *final(score) == *old(score)
            &&& step matches FitnessStep::Failed(why) && why@ == "Moves length is 0"@
        },
        moves@.len() > 0 ==> {
            let played = game_run(game_view(*old(game)), moves@.drop_last());
            let (after, res) = game_step(played, moves@.last());
            &&& game_view(*final(game)) == after
            &&& match res {
                GameMoveRes::SuccessDrop(d) => if 0 <= d.lines_cleared <= 4 {
                    let gained = fitness_points(d.lines_cleared as int, after.matrix[0] == 0);
                    if d.top_out {
                        &&& step is ToppedOut
                        &&& *final(score) == *old(score) + gained + AI_TOP_OUT_WEIGHT * rounds_left
                    } else {
                        &&& step is Continue
                        &&& *final(score) == *old(score) + gained
                    }
                } else {
                    &&& *final(score) == *old(score)
                    &&& step matches FitnessStep::Failed(why) && why@ == "Error getting drop score"@
                },
                _ => {
                    &&& *final(score) == *old(score)
                    &&& step matches FitnessStep::Failed(why) && why@ == "Last move was not hard drop"@
                },
            }
        },
{
    let mut moves = moves;
    let ghost all = moves@;
    let last_move = match moves.pop() {
        Some(m) => m,
        None => return FitnessStep::Failed(String::from_str("Moves length is 0")),
    };
    let ghost v0 = game_view(*game);
    let mut k: usize = 0;
    while k < moves.len()
        invariant
            k <= moves@.len(),
            moves@ == all.drop_last(),
            game.wf(),
            game_view(*game) == game_run(v0, moves@.take(k as int)),
        decreases moves@.len() - k,
    {
        let ghost before = *game;
        let r = game.make_move(&moves[k]);
        proof {
            lemma_game_move_step(before, *game, r, moves@[k as int]);
            lemma_game_run_push(v0, moves@.take(k as int), moves@[k as int]);
            assert(moves@.take(k as int).push(moves@[k as int]) =~= moves@.take(k + 1));
        }
        k += 1;
    }
    proof {
        assert(moves@.take(moves@.len() as int) =~= moves@);
    }
    let ghost before = *game;
    let r = game.make_move(&last_move);
    proof {
        lemma_game_move_step(before, *game, r, last_move);
    }
    let drop_res = match r {
        GameMoveRes::SuccessDrop(d) => d,
        _ => return FitnessStep::Failed(String::from_str("Last move was not hard drop")),
    };
    let gained = match get_drop_res_score(&drop_res, game) {
        Ok(s) => s,
        Err(_) => return FitnessStep::Failed(String::from_str("Error getting drop score")),
    };
    *score = *score + gained;
    if drop_res.top_out {
        *score = *score + AI_TOP_OUT_WEIGHT * rounds_left;
        return FitnessStep::ToppedOut;
    }
    FitnessStep::Continue
}

/// Adds a shuffled bag of the seven piece types to the queue when fewer
/// than seven pieces are left in it.
pub fn refill_queue(game: &mut Game, rng: &mut StdRng)
    ensures
        final(game).board == old(game).board,
        final(game).current_piece == old(game).current_piece,
        final(game).hold_piece == old(game).hold_piece,
        final(game).can_hold == old(game).can_hold,
        old(game).queue_pieces@.len() >= 7 ==> final(game).queue_pieces@ == old(game).queue_pieces@,
        old(game).queue_pieces@.len() < 7 ==> {
            let bag = final(game).queue_pieces@.skip(old(game).queue_pieces@.len() as int);
            &&& final(game).queue_pieces@.take(old(game).queue_pieces@.len() as int) == old(game).queue_pieces@
            &&& bag.len() == 7
            &&& bag.to_multiset() == all_types().to_multiset()
        },
{
    if game.queue_pieces.len() < 7 {
        let mut bag = PieceType::iter_types();
        proof {
            assert forall|k: int| 0 <= k < 7 implies bag@[k] == all_types()[k] by {
                lemma_piece_type_of_index(bag@[k]);
            }
            assert(bag@ =~= all_types());
        }
        shuffle(&mut bag, rng);
        let ghost q = game.queue_pieces@;
        game.extend_queue(bag.as_slice());
        proof {
            assert(game.queue_pieces@.take(q.len() as int) =~= q);
            assert(game.queue_pieces@.skip(q.len() as int) =~= bag@);
        }
    }
}

} // verus!

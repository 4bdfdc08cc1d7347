//! The searching bot's children of a game: every way to play the falling
//! or the held piece, and the games that they leave.
use vstd::prelude::*;
use crate::common::computed::{shift_bounds, lemma_location_bounds_range};
use crate::common::game::{Game, GameDropRes, GameMove, GameMoveRes};
use crate::common::piece::Piece;
use crate::common::play::{GameView, game_run, game_step, game_view, lemma_game_move_step, lemma_game_run_push};

verus! {

/// The moves that turn a piece to orientation `r`.
pub open spec fn turn_moves(r: int) -> Seq<GameMove> {
    if r == 1 {
        seq![GameMove::RotateRight]
    } else if r == 2 {
        seq![GameMove::Rotate180]
    } else if r == 3 {
        seq![GameMove::RotateLeft]
    } else {
        Seq::empty()
    }
}

/// The moves that shift a piece by `shift` columns.
pub open spec fn slide_moves(shift: int) -> Seq<GameMove> {
    if shift >= 0 {
        Seq::new(shift as nat, |i: int| GameMove::ShiftRight)
    } else {
        Seq::new((-shift) as nat, |i: int| GameMove::ShiftLeft)
    }
}

/// The moves that play the held piece when `hold` is set, turn it to `r`,
/// shift it by `shift`, and, when `fr` is not 0, drop it and turn it to
/// `fr`.
pub open spec fn rusty_list(hold: bool, r: int, shift: int, fr: int) -> Seq<GameMove> {
    (if hold {
        seq![GameMove::Hold]
    } else {
        Seq::empty()
    }) + turn_moves(r) + slide_moves(shift) + (if fr == 0 {
        Seq::empty()
    } else {
        seq![GameMove::SoftDrop] + turn_moves(fr)
    })
}

/// The lists for piece number `t` in orientation `r`: every shift within
/// its bounds, from the leftmost.
pub open spec fn shift_lists(t: int, hold: bool, r: int, fr: int) -> Seq<Seq<GameMove>> {
    let b = shift_bounds(t, r as nat);
    Seq::new((b.0 + b.1 + 1) as nat, |k: int| rusty_list(hold, r, k - b.0, fr))
}

/// The lists for piece number `t` in orientations `0..n`.
pub open spec fn rot_lists(t: int, hold: bool, fr: int, n: nat) -> Seq<Seq<GameMove>>
    decreases n,
{
    if n == 0 {
        Seq::empty()
    } else {
        rot_lists(t, hold, fr, (n - 1) as nat) + shift_lists(t, hold, n - 1, fr)
    }
}

/// The lists for the current piece `cur` and then the held piece `held`,
/// the first `n` of the two.
pub open spec fn hold_lists(cur: int, held: int, fr: int, n: nat) -> Seq<Seq<GameMove>>
    decreases n,
{
    if n == 0 {
        Seq::empty()
    } else {
        hold_lists(cur, held, fr, (n - 1) as nat) + rot_lists(
            if n - 1 == 0 {
                cur
            } else {
                held
            },
            n - 1 == 1,
            fr,
            4,
        )
    }
}

/// The lists for final orientations `0..n`.
pub open spec fn all_lists(cur: int, held: int, n: nat) -> Seq<Seq<GameMove>>
    decreases n,
{
    if n == 0 {
        Seq::empty()
    } else {
        all_lists(cur, held, (n - 1) as nat) + hold_lists(cur, held, n - 1, 2)
    }
}

/// Every list of moves the bot tries for a game: for each final
/// orientation, the current piece and then the held one, each orientation
/// and each shift.
pub open spec fn rusty_move_lists(game: Game) -> Seq<Seq<GameMove>> {
    all_lists(game.current_piece.piece_type.index(), game.hold_piece->0.index(), 4)
}

fn push_turn(moves: &mut Vec<GameMove>, r: i8)
    requires
        0 <= r < 4,
    ensures
        final(moves)@ == old(moves)@ + turn_moves(r as int),
{
    match r {
        0 => {},
        1 => moves.push(GameMove::RotateRight),
        2 => moves.push(GameMove::Rotate180),
        _ => moves.push(GameMove::RotateLeft),
    }
    assert(moves@ =~= old(moves)@ + turn_moves(r as int));
}

// The list that plays the held piece when `hold` is set, turns to
// `rotation`, shifts by `shift` and ends turned to `final_rotation`.
fn make_list(hold: bool, rotation: i8, shift: i8, final_rotation: i8) -> (moves: Vec<GameMove>)
    requires
        0 <= rotation < 4,
        0 <= final_rotation < 4,
        -10 <= shift <= 10,
    ensures
        moves@ == rusty_list(hold, rotation as int, shift as int, final_rotation as int),
{
    let mut moves: Vec<GameMove> = Vec::new();
    if hold {
        moves.push(GameMove::Hold);
    }
    push_turn(&mut moves, rotation);
    let ghost head = moves@;
    let n: i8 = if shift < 0 {
        -shift
    } else {
        shift
    };
    let mut i: i8 = 0;
    while i < n
        invariant
            0 <= i <= n,
            n == (if shift < 0 {
                -shift
            } else {
                shift as int
            }),
            moves@ == head + slide_moves(shift as int).take(i as int),
        decreases n - i,
    {
        if shift > 0 {
            moves.push(GameMove::ShiftRight);
        } else {
            moves.push(GameMove::ShiftLeft);
        }
        assert(moves@ =~= head + slide_moves(shift as int).take(i + 1));
        i += 1;
    }
    assert(slide_moves(shift as int).take(i as int) =~= slide_moves(shift as int));
    let ghost mid = moves@;
    if final_rotation != 0 {
        moves.push(GameMove::SoftDrop);
        push_turn(&mut moves, final_rotation);
    }
    assert(moves@ =~= mid + (if final_rotation == 0 {
        Seq::<GameMove>::empty()
    } else {
        seq![GameMove::SoftDrop] + turn_moves(final_rotation as int)
    }));
    moves
}

/// Every list of moves the bot tries for a game: for each final
/// orientation, the current piece and then the held one, each orientation
/// and each shift within the piece's bounds.
pub fn gen_moves(game: &Game) -> (res: Vec<Vec<GameMove>>)
    requires
        game.hold_piece is Some,
    ensures
        res@.map_values(|v: Vec<GameMove>| v@) == rusty_move_lists(*game),
{
    let ghost cur = game.current_piece.piece_type.index();
    let ghost held = game.hold_piece->0.index();
    let mut res: Vec<Vec<GameMove>> = Vec::new();
    let mut final_rotation: i8 = 0;
    while final_rotation < 4
        invariant
            0 <= final_rotation <= 4,
            game.hold_piece is Some,
            cur == game.current_piece.piece_type.index(),
            held == game.hold_piece->0.index(),
            res@.map_values(|v: Vec<GameMove>| v@) == all_lists(cur, held, final_rotation as nat),
        decreases 4 - final_rotation,
    {
        let ghost s_fr = res@.map_values(|v: Vec<GameMove>| v@);
        let mut hold: i8 = 0;
        while hold < 2
            invariant
                0 <= final_rotation < 4,
                0 <= hold <= 2,
                game.hold_piece is Some,
                cur == game.current_piece.piece_type.index(),
                held == game.hold_piece->0.index(),
                s_fr == all_lists(cur, held, final_rotation as nat),
                res@.map_values(|v: Vec<GameMove>| v@) == s_fr + hold_lists(cur, held, final_rotation as int, hold as nat),
            decreases 2 - hold,
        {
            let piece = if hold == 0 {
                game.current_piece.piece_type
            } else {
                match game.hold_piece {
                    Some(p) => p,
                    None => game.current_piece.piece_type,
                }
            };
            let ghost t = piece.index();
            assert(t == if hold == 0 {
                cur
            } else {
                held
            });
            let ghost s_h = res@.map_values(|v: Vec<GameMove>| v@);
            let mut rotation: i8 = 0;
            while rotation < 4
                invariant
                    0 <= final_rotation < 4,
                    0 <= hold < 2,
                    0 <= rotation <= 4,
                    t == piece.index(),
                    s_h == s_fr + hold_lists(cur, held, final_rotation as int, hold as nat),
                    res@.map_values(|v: Vec<GameMove>| v@) == s_h + rot_lists(t, hold == 1, final_rotation as int, rotation as nat),
                decreases 4 - rotation,
            {
                let (left, right) = Piece::info_shift_bounds(&piece, rotation);
                proof {
                    lemma_location_bounds_range(t, rotation as nat);
                }
                let ghost s_r = res@.map_values(|v: Vec<GameMove>| v@);
                let mut shift: i8 = -left;
                while shift <= right
                    invariant
                        0 <= final_rotation < 4,
                        0 <= hold < 2,
                        0 <= rotation < 4,
                        t == piece.index(),
                        left == shift_bounds(t, rotation as nat).0,
                        right == shift_bounds(t, rotation as nat).1,
                        3 <= left <= 7,
                        3 <= right <= 7,
                        -left <= shift <= right + 1,
                        s_r == s_h + rot_lists(t, hold == 1, final_rotation as int, rotation as nat),
                        res@.map_values(|v: Vec<GameMove>| v@) == s_r + shift_lists(
                            t,
                            hold == 1,
                            rotation as int,
                            final_rotation as int,
                        ).take(shift + left),
                    decreases right + 1 - shift,
                {
                    let moves = make_list(hold == 1, rotation, shift, final_rotation);
                    let ghost before = res@;
                    res.push(moves);
                    proof {
                        let k = shift + left;
                        assert(shift_lists(t, hold == 1, rotation as int, final_rotation as int)[k] == moves@);
                        assert(res@.map_values(|v: Vec<GameMove>| v@) =~= before.map_values(|v: Vec<GameMove>| v@).push(
                            moves@,
                        ));
                        assert(shift_lists(t, hold == 1, rotation as int, final_rotation as int).take(k + 1) =~= shift_lists(
                            t,
                            hold == 1,
                            rotation as int,
                            final_rotation as int,
                        ).take(k).push(moves@));
                    }
                    shift += 1;
                }
                proof {
                    assert(shift_lists(t, hold == 1, rotation as int, final_rotation as int).take(shift + left) =~= shift_lists(
                        t,
                        hold == 1,
                        rotation as int,
                        final_rotation as int,
                    ));
                }
                rotation += 1;
            }
            hold += 1;
        }
        final_rotation += 1;
    }
    res
}

/// The list never drops the piece.
pub open spec fn no_hard_drop(l: Seq<GameMove>) -> bool {
    forall|i: int| 0 <= i < l.len() ==> l[i] != GameMove::HardDrop
}

proof fn lemma_lists_no_hard_drop(cur: int, held: int)
    ensures
        forall|j: int| 0 <= j < all_lists(cur, held, 4).len() ==> no_hard_drop(#[trigger] all_lists(cur, held, 4)[j]),
{
    assert forall|hold: bool, r: int, shift: int, fr: int| #[trigger] no_hard_drop(rusty_list(hold, r, shift, fr)) by {
        let l = rusty_list(hold, r, shift, fr);
        let a = if hold {
            seq![GameMove::Hold]
        } else {
            Seq::<GameMove>::empty()
        };
        let b = turn_moves(r);
        let c = slide_moves(shift);
        let d = if fr == 0 {
            Seq::<GameMove>::empty()
        } else {
            seq![GameMove::SoftDrop] + turn_moves(fr)
        };
        assert(l == a + b + c + d);
        assert forall|i: int| 0 <= i < l.len() implies l[i] != GameMove::HardDrop by {
            if i < a.len() {
            } else if i < a.len() + b.len() {
                assert(l[i] == b[i - a.len()]);
            } else if i < a.len() + b.len() + c.len() {
                assert(l[i] == c[i - a.len() - b.len()]);
            } else {
                assert(l[i] == d[i - a.len() - b.len() - c.len()]);
                if fr != 0 {
                    let e = i - a.len() - b.len() - c.len();
                    if e > 0 {
                        assert(d[e] == turn_moves(fr)[e - 1]);
                    }
                }
            }
        }
    }
    assert forall|t: int, hold: bool, fr: int, n: nat, j: int|
        0 <= j < rot_lists(t, hold, fr, n).len() implies no_hard_drop(#[trigger] rot_lists(t, hold, fr, n)[j]) by {
        lemma_rot_lists_no_hard_drop(t, hold, fr, n);
    }
    assert forall|fr: int, n: nat, j: int| 0 <= j < hold_lists(cur, held, fr, n).len() implies no_hard_drop(
        #[trigger] hold_lists(cur, held, fr, n)[j],
    ) by {
        lemma_hold_lists_no_hard_drop(cur, held, fr, n);
    }
    lemma_all_lists_no_hard_drop(cur, held, 4);
}

proof fn lemma_rot_lists_no_hard_drop(t: int, hold: bool, fr: int, n: nat)
    requires
        forall|hold: bool, r: int, shift: int, fr: int| #[trigger] no_hard_drop(rusty_list(hold, r, shift, fr)),
    ensures
        forall|j: int| 0 <= j < rot_lists(t, hold, fr, n).len() ==> no_hard_drop(#[trigger] rot_lists(t, hold, fr, n)[j]),
    decreases n,
{
    if n > 0 {
        lemma_rot_lists_no_hard_drop(t, hold, fr, (n - 1) as nat);
        let a = rot_lists(t, hold, fr, (n - 1) as nat);
        let b = shift_lists(t, hold, n - 1, fr);
        assert forall|j: int| 0 <= j < rot_lists(t, hold, fr, n).len() implies no_hard_drop(
            #[trigger] rot_lists(t, hold, fr, n)[j],
        ) by {
            if j < a.len() {
                assert(rot_lists(t, hold, fr, n)[j] == a[j]);
            } else {
                assert(rot_lists(t, hold, fr, n)[j] == b[j - a.len()]);
                let bd = shift_bounds(t, (n - 1) as nat);
                assert(b[j - a.len()] == rusty_list(hold, n - 1, (j - a.len()) - bd.0, fr));
            }
        }
    }
}

proof fn lemma_hold_lists_no_hard_drop(cur: int, held: int, fr: int, n: nat)
    requires
        forall|t: int, hold: bool, fr: int, n: nat, j: int|
            0 <= j < rot_lists(t, hold, fr, n).len() ==> no_hard_drop(#[trigger] rot_lists(t, hold, fr, n)[j]),
    ensures
        forall|j: int| 0 <= j < hold_lists(cur, held, fr, n).len() ==> no_hard_drop(#[trigger] hold_lists(cur, held, fr, n)[j]),
    decreases n,
{
    if n > 0 {
        lemma_hold_lists_no_hard_drop(cur, held, fr, (n - 1) as nat);
        let a = hold_lists(cur, held, fr, (n - 1) as nat);
        let t = if n - 1 == 0 {
            cur
        } else {
            held
        };
        let b = rot_lists(t, n - 1 == 1, fr, 4);
        assert forall|j: int| 0 <= j < hold_lists(cur, held, fr, n).len() implies no_hard_drop(
            #[trigger] hold_lists(cur, held, fr, n)[j],
        ) by {
            if j < a.len() {
                assert(hold_lists(cur, held, fr, n)[j] == a[j]);
            } else {
                assert(hold_lists(cur, held, fr, n)[j] == b[j - a.len()]);
            }
        }
    }
}

proof fn lemma_all_lists_no_hard_drop(cur: int, held: int, n: nat)
    requires
        forall|fr: int, n: nat, j: int| 0 <= j < hold_lists(cur, held, fr, n).len() ==> no_hard_drop(
            #[trigger] hold_lists(cur, held, fr, n)[j],
        ),
    ensures
        forall|j: int| 0 <= j < all_lists(cur, held, n).len() ==> no_hard_drop(#[trigger] all_lists(cur, held, n)[j]),
    decreases n,
{
    if n > 0 {
        lemma_all_lists_no_hard_drop(cur, held, (n - 1) as nat);
        let a = all_lists(cur, held, (n - 1) as nat);
        let b = hold_lists(cur, held, n - 1, 2);
        assert forall|j: int| 0 <= j < all_lists(cur, held, n).len() implies no_hard_drop(#[trigger] all_lists(cur, held, n)[j]) by {
            if j < a.len() {
                assert(all_lists(cur, held, n)[j] == a[j]);
            } else {
                assert(all_lists(cur, held, n)[j] == b[j - a.len()]);
            }
        }
    }
}

/// Moves other than a hard drop keep the queue, and a held piece held.
proof fn lemma_run_keeps_queue(v: GameView, moves: Seq<GameMove>)
    requires
        v.hold is Some,
        no_hard_drop(moves),
    ensures
        game_run(v, moves).queue == v.queue,
        game_run(v, moves).hold is Some,
    decreases moves.len(),
{
    if moves.len() > 0 {
        let w = game_step(v, moves[0]).0;
        assert(w.queue == v.queue && w.hold is Some);
        assert forall|i: int| 0 <= i < moves.drop_first().len() implies moves.drop_first()[i] != GameMove::HardDrop by {
            assert(moves.drop_first()[i] == moves[i + 1]);
        }
        lemma_run_keeps_queue(w, moves.drop_first());
    }
}

/// The game that moves `l` and a hard drop leave of `game`, and the
/// drop's result.
pub open spec fn child_after(game: Game, l: Seq<GameMove>) -> (GameView, GameMoveRes) {
    game_step(game_run(game_view(game), l), GameMove::HardDrop)
}

/// The drop after moves `l` succeeds without topping out.
pub open spec fn child_kept(game: Game, l: Seq<GameMove>) -> bool {
    child_after(game, l).1 matches GameMoveRes::SuccessDrop(d) && !d.top_out
}

/// The cells of the child of moves `l`, and whether its falling piece is of
/// another type than the game's.
pub open spec fn moves_key(game: Game, l: Seq<GameMove>) -> (Seq<u16>, bool) {
    (child_after(game, l).0.matrix, child_after(game, l).0.current.piece_type != game.current_piece.piece_type)
}

/// The cells of the child of moves `l`, and whether `l` plays the held
/// piece.
pub open spec fn hold_key(game: Game, l: Seq<GameMove>) -> (Seq<u16>, bool) {
    (child_after(game, l).0.matrix, l.len() > 0 && l[0] == GameMove::Hold)
}

// The game that the moves and a hard drop leave, and the drop's result.
fn play_list(game: &Game, moves: &Vec<GameMove>) -> (res: (Game, GameDropRes))
    requires
        game.wf(),
        game.hold_piece is Some,
        game.queue_pieces@.len() > 0,
        no_hard_drop(moves@),
    ensures
        res.0.wf(),
        game_view(res.0) == child_after(*game, moves@).0,
        child_after(*game, moves@).1 == GameMoveRes::SuccessDrop(res.1),
{
    let mut child = game.duplicate();
    assert(game_view(child) == game_view(*game));
    assert(moves@.take(0) =~= Seq::<GameMove>::empty());
    let mut k: usize = 0;
    while k < moves.len()
        invariant
            0 <= k <= moves@.len(),
            child.wf(),
            game_view(child) == game_run(game_view(*game), moves@.take(k as int)),
        decreases moves@.len() - k,
    {
        let ghost before = child;
        let r = child.make_move(&moves[k]);
        proof {
            lemma_game_move_step(before, child, r, moves@[k as int]);
            lemma_game_run_push(game_view(*game), moves@.take(k as int), moves@[k as int]);
            assert(moves@.take(k as int).push(moves@[k as int]) =~= moves@.take(k + 1));
        }
        k += 1;
    }
    proof {
        assert(moves@.take(k as int) =~= moves@);
        lemma_run_keeps_queue(game_view(*game), moves@);
    }
    let ghost before = child;
    let r = child.make_move(&GameMove::HardDrop);
    proof {
        lemma_game_move_step(before, child, r, GameMove::HardDrop);
    }
    match r {
        GameMoveRes::SuccessDrop(d) => (child, d),
        _ => {
            proof {
                assert(false);
            }
            (child, GameDropRes { lines_cleared: 0, top_out: false })
        },
    }
}

fn same_matrix(a: &[u16; 24], b: &[u16; 24]) -> (same: bool)
    ensures
        same == (a@ == b@),
{
    let mut i: usize = 0;
    while i < 24
        invariant
            0 <= i <= 24,
            forall|j: int| 0 <= j < i ==> a@[j] == b@[j],
        decreases 24 - i,
    {
        if a[i] != b[i] {
            return false;
        }
        i += 1;
    }
    assert(a@ =~= b@);
    true
}

fn copy_moves(moves: &Vec<GameMove>) -> (out: Vec<GameMove>)
    ensures
        out@ == moves@,
{
    let mut out: Vec<GameMove> = Vec::new();
    let mut j: usize = 0;
    while j < moves.len()
        invariant
            0 <= j <= moves@.len(),
            out@ == moves@.take(j as int),
        decreases moves@.len() - j,
    {
        out.push(moves[j]);
        assert(out@ =~= moves@.take(j + 1));
        j += 1;
    }
    assert(moves@.take(j as int) =~= moves@);
    out
}

/// The key under which children are told apart: the cells and the change
/// of falling piece type when `by_hold` is not set, the cells and whether
/// the list plays the held piece when it is.
pub open spec fn key_of(game: Game, by_hold: bool, l: Seq<GameMove>) -> (Seq<u16>, bool) {
    if by_hold {
        hold_key(game, l)
    } else {
        moves_key(game, l)
    }
}

/// The games of a list of children.
pub open spec fn entry_views<A, B>(res: Seq<(Game, A, B)>) -> Seq<GameView> {
    res.map_values(|e: (Game, A, B)| game_view(e.0))
}

/// The drop results of a list of children.
pub open spec fn entry_drops<B>(res: Seq<(Game, GameDropRes, B)>) -> Seq<GameDropRes> {
    res.map_values(|e: (Game, GameDropRes, B)| e.1)
}

/// The children `views` (with drop results `drops`) are those of `game`
/// for the move lists `lists[0..n]`, child `i` made by list `from[i]`: one
/// for each key of a drop that does not top out, made by the first list
/// with that key.
pub open spec fn children_listed(
    game: Game,
    lists: Seq<Seq<GameMove>>,
    n: int,
    views: Seq<GameView>,
    drops: Seq<GameDropRes>,
    from: Seq<int>,
    by_hold: bool,
) -> bool {
    &&& views.len() == drops.len() == from.len()
    &&& forall|i: int| 0 <= i < from.len() ==> 0 <= #[trigger] from[i] < n
    &&& forall|a: int, b: int|
        0 <= a < b < from.len() ==> key_of(game, by_hold, lists[#[trigger] from[a]]) != key_of(
            game,
            by_hold,
            lists[#[trigger] from[b]],
        )
    &&& forall|i: int|
        0 <= i < from.len() ==> {
            let j = #[trigger] from[i];
            &&& child_kept(game, lists[j])
            &&& views[i] == child_after(game, lists[j]).0
            &&& child_after(game, lists[j]).1 == GameMoveRes::SuccessDrop(drops[i])
            &&& forall|j2: int|
                0 <= j2 < j && child_kept(game, lists[j2]) ==> key_of(game, by_hold, lists[j2]) != key_of(
                    game,
                    by_hold,
                    lists[j],
                )
        }
    &&& forall|j: int|
        0 <= j < n && child_kept(game, lists[j]) ==> exists|i: int|
            0 <= i < from.len() && key_of(game, by_hold, lists[#[trigger] from[i]]) == key_of(game, by_hold, lists[j])
}

#[verifier::rlimit(60)]
proof fn lemma_children_step(
    game: Game,
    lists: Seq<Seq<GameMove>>,
    n: int,
    views: Seq<GameView>,
    drops: Seq<GameDropRes>,
    from: Seq<int>,
    by_hold: bool,
    d: GameDropRes,
)
    requires
        0 <= n < lists.len(),
        children_listed(game, lists, n, views, drops, from, by_hold),
        child_after(game, lists[n]).1 == GameMoveRes::SuccessDrop(d),
    ensures
        ({
            let seen = exists|i: int|
                0 <= i < from.len() && key_of(game, by_hold, lists[#[trigger] from[i]]) == key_of(game, by_hold, lists[n]);
            &&& (!child_kept(game, lists[n]) || seen) ==> children_listed(game, lists, n + 1, views, drops, from, by_hold)
            &&& (child_kept(game, lists[n]) && !seen) ==> children_listed(
                game,
                lists,
                n + 1,
                views.push(child_after(game, lists[n]).0),
                drops.push(d),
                from.push(n),
                by_hold,
            )
        }),
{
    let seen = exists|i: int|
        0 <= i < from.len() && key_of(game, by_hold, lists[#[trigger] from[i]]) == key_of(game, by_hold, lists[n]);
    if child_kept(game, lists[n]) && !seen {
        let f2 = from.push(n);
        assert forall|i: int| 0 <= i < f2.len() implies 0 <= #[trigger] f2[i] < n + 1 by {
            if i < from.len() {
                assert(f2[i] == from[i]);
            }
        }
        assert forall|a: int, b: int|
            0 <= a < b < f2.len() implies key_of(game, by_hold, lists[#[trigger] f2[a]]) != key_of(
            game,
            by_hold,
            lists[#[trigger] f2[b]],
        ) by {
            assert(f2[a] == from[a]);
            if b < from.len() {
                assert(f2[b] == from[b]);
            }
        }
        assert forall|i: int| 0 <= i < f2.len() implies {
            let j = #[trigger] f2[i];
            &&& child_kept(game, lists[j])
            &&& views.push(child_after(game, lists[n]).0)[i] == child_after(game, lists[j]).0
            &&& child_after(game, lists[j]).1 == GameMoveRes::SuccessDrop(drops.push(d)[i])
            &&& forall|j2: int|
                0 <= j2 < j && child_kept(game, lists[j2]) ==> key_of(game, by_hold, lists[j2]) != key_of(
                    game,
                    by_hold,
                    lists[j],
                )
        } by {
            if i < from.len() {
                assert(f2[i] == from[i]);
            } else {
                assert forall|j2: int| 0 <= j2 < n && child_kept(game, lists[j2]) implies key_of(game, by_hold, lists[j2])
                    != key_of(game, by_hold, lists[n]) by {
                    let a = choose|a: int|
                        0 <= a < from.len() && key_of(game, by_hold, lists[#[trigger] from[a]]) == key_of(
                            game,
                            by_hold,
                            lists[j2],
                        );
                }
            }
        }
        assert forall|j: int| 0 <= j < n + 1 && child_kept(game, lists[j]) implies exists|i: int|
            0 <= i < f2.len() && key_of(game, by_hold, lists[#[trigger] f2[i]]) == key_of(game, by_hold, lists[j]) by {
            if j < n {
                let a = choose|a: int|
                    0 <= a < from.len() && key_of(game, by_hold, lists[#[trigger] from[a]]) == key_of(game, by_hold, lists[j]);
                assert(f2[a] == from[a]);
            } else {
                assert(f2[from.len() as int] == n);
            }
        }
    }
}

/// Every game the bot can leave with one piece: for each move list, the
/// game after its moves and a hard drop, with the drop's result and the
/// moves; drops that top out are left out, and of the children with the
/// same cells and the same change of falling piece type, the one of the
/// first list is kept.
#[verifier::rlimit(50)]
pub fn gen_child_states(game: &Game) -> (res: Vec<(Game, GameDropRes, Vec<GameMove>)>)
    requires
        game.wf(),
        game.hold_piece is Some,
        game.queue_pieces@.len() > 0,
    ensures
        exists|from: Seq<int>|
            {
                &&& #[trigger] children_listed(
                    *game,
                    rusty_move_lists(*game),
                    rusty_move_lists(*game).len() as int,
                    entry_views(res@),
                    entry_drops(res@),
                    from,
                    false,
                )
                &&& forall|i: int| 0 <= i < res@.len() ==> (#[trigger] res@[i]).2@ == rusty_move_lists(*game)[from[i]] && res@[i].0.wf()
            },
{
    let lists = gen_moves(game);
    let ghost ls = rusty_move_lists(*game);
    let ghost mut from: Seq<int> = Seq::empty();
    proof {
        lemma_lists_no_hard_drop(game.current_piece.piece_type.index(), game.hold_piece->0.index());
        assert(lists@.map_values(|v: Vec<GameMove>| v@).len() == lists@.len());
    }
    let mut res: Vec<(Game, GameDropRes, Vec<GameMove>)> = Vec::new();
    let mut j: usize = 0;
    while j < lists.len()
        invariant
            0 <= j <= lists@.len(),
            game.wf(),
            game.hold_piece is Some,
            game.queue_pieces@.len() > 0,
            ls == rusty_move_lists(*game),
            lists@.map_values(|v: Vec<GameMove>| v@) == ls,
            forall|i: int| 0 <= i < ls.len() ==> no_hard_drop(#[trigger] ls[i]),
            children_listed(*game, ls, j as int, entry_views(res@), entry_drops(res@), from, false),
            forall|i: int| 0 <= i < res@.len() ==> (#[trigger] res@[i]).2@ == ls[from[i]] && res@[i].0.wf(),
        decreases lists@.len() - j,
    {
        proof {
            assert(lists@.map_values(|v: Vec<GameMove>| v@)[j as int] == lists@[j as int]@);
        }
        let (child, drop) = play_list(game, &lists[j]);
        let ghost views = entry_views(res@);
        let ghost drops = entry_drops(res@);
        proof {
            lemma_children_step(*game, ls, j as int, views, drops, from, false, drop);
        }
        if !drop.top_out {
            let hold = child.current_piece.piece_type != game.current_piece.piece_type;
            let mut seen = false;
            let mut i: usize = 0;
            while i < res.len()
                invariant
                    0 <= i <= res@.len(),
                    views == entry_views(res@),
                    from.len() == res@.len(),
                    forall|a: int| 0 <= a < from.len() ==> views[a] == child_after(*game, ls[#[trigger] from[a]]).0,
                    seen == exists|a: int|
                        0 <= a < i && key_of(*game, false, ls[#[trigger] from[a]]) == (child.board.matrix@, hold),
                decreases res@.len() - i,
            {
                let same_hold = (res[i].0.current_piece.piece_type != game.current_piece.piece_type) == hold;
                proof {
                    assert(views[i as int] == game_view(res@[i as int].0));
                }
                if same_hold && same_matrix(&res[i].0.board.matrix, &child.board.matrix) {
                    assert(key_of(*game, false, ls[from[i as int]]) == (child.board.matrix@, hold));
                    seen = true;
                }
                i += 1;
            }
            proof {
                assert(key_of(*game, false, ls[j as int]) == (child.board.matrix@, hold));
            }
            if !seen {
                let moves = copy_moves(&lists[j]);
                let ghost before = res@;
                res.push((child, drop, moves));
                proof {
                    from = from.push(j as int);
                    assert(entry_views(res@) =~= views.push(child_after(*game, ls[j as int]).0));
                    assert(entry_drops(res@) =~= drops.push(drop));
                    assert forall|i: int| 0 <= i < res@.len() implies (#[trigger] res@[i]).2@ == ls[from[i]] && res@[i].0.wf() by {
                        if i < before.len() {
                            assert(res@[i] == before[i]);
                        }
                    }
                }
            }
        }
        j += 1;
    }
    res
}

/// The games of a list of children without moves.
pub open spec fn pair_views(res: Seq<(Game, GameDropRes)>) -> Seq<GameView> {
    res.map_values(|e: (Game, GameDropRes)| game_view(e.0))
}

/// The drop results of a list of children without moves.
pub open spec fn pair_drops(res: Seq<(Game, GameDropRes)>) -> Seq<GameDropRes> {
    res.map_values(|e: (Game, GameDropRes)| e.1)
}

/// Every game the bot can leave with one piece, without the moves: for
/// each move list, the game after its moves and a hard drop, with the
/// drop's result; drops that top out are left out, and of the children
/// with the same cells, both playing the held piece or both not, the one
/// of the first list is kept.
#[verifier::rlimit(50)]
pub fn gen_child_states_no_moves(game: &Game) -> (res: Vec<(Game, GameDropRes)>)
    requires
        game.wf(),
        game.hold_piece is Some,
        game.queue_pieces@.len() > 0,
    ensures
        forall|i: int| 0 <= i < res@.len() ==> (#[trigger] res@[i]).0.wf(),
        exists|from: Seq<int>|
            #[trigger] children_listed(
                *game,
                rusty_move_lists(*game),
                rusty_move_lists(*game).len() as int,
                pair_views(res@),
                pair_drops(res@),
                from,
                true,
            ),
{
    let lists = gen_moves(game);
    let ghost ls = rusty_move_lists(*game);
    let ghost mut from: Seq<int> = Seq::empty();
    proof {
        lemma_lists_no_hard_drop(game.current_piece.piece_type.index(), game.hold_piece->0.index());
        assert(lists@.map_values(|v: Vec<GameMove>| v@).len() == lists@.len());
    }
    let mut res: Vec<(Game, GameDropRes)> = Vec::new();
    let mut holds: Vec<bool> = Vec::new();
    let mut j: usize = 0;
    while j < lists.len()
        invariant
            0 <= j <= lists@.len(),
            game.wf(),
            game.hold_piece is Some,
            game.queue_pieces@.len() > 0,
            ls == rusty_move_lists(*game),
            lists@.map_values(|v: Vec<GameMove>| v@) == ls,
            forall|i: int| 0 <= i < ls.len() ==> no_hard_drop(#[trigger] ls[i]),
            children_listed(*game, ls, j as int, pair_views(res@), pair_drops(res@), from, true),
            holds@.len() == res@.len(),
            forall|i: int| 0 <= i < holds@.len() ==> #[trigger] holds@[i] == (ls[from[i]].len() > 0 && ls[from[i]][0] == GameMove::Hold),
            forall|i: int| 0 <= i < res@.len() ==> (#[trigger] res@[i]).0.wf(),
        decreases lists@.len() - j,
    {
        proof {
            assert(lists@.map_values(|v: Vec<GameMove>| v@)[j as int] == lists@[j as int]@);
        }
        let (child, drop) = play_list(game, &lists[j]);
        let ghost views = pair_views(res@);
        let ghost drops = pair_drops(res@);
        proof {
            lemma_children_step(*game, ls, j as int, views, drops, from, true, drop);
        }
        if !drop.top_out {
            let hold = lists[j].len() > 0 && lists[j][0] == GameMove::Hold;
            let mut seen = false;
            let mut i: usize = 0;
            while i < res.len()
                invariant
                    0 <= i <= res@.len(),
                    views == pair_views(res@),
                    from.len() == res@.len(),
                    holds@.len() == res@.len(),
                    forall|a: int| 0 <= a < holds@.len() ==> #[trigger] holds@[a] == (ls[from[a]].len() > 0 && ls[from[a]][0] == GameMove::Hold),
                    forall|a: int| 0 <= a < from.len() ==> views[a] == child_after(*game, ls[#[trigger] from[a]]).0,
                    seen == exists|a: int|
                        0 <= a < i && key_of(*game, true, ls[#[trigger] from[a]]) == (child.board.matrix@, hold),
                decreases res@.len() - i,
            {
                proof {
                    assert(views[i as int] == game_view(res@[i as int].0));
                    assert(holds@[i as int] == (ls[from[i as int]].len() > 0 && ls[from[i as int]][0] == GameMove::Hold));
                }
                if holds[i] == hold && same_matrix(&res[i].0.board.matrix, &child.board.matrix) {
                    assert(key_of(*game, true, ls[from[i as int]]) == (child.board.matrix@, hold));
                    seen = true;
                }
                i += 1;
            }
            proof {
                assert(key_of(*game, true, ls[j as int]) == (child.board.matrix@, hold));
            }
            if !seen {
                let ghost before = res@;
                let ghost hb = holds@;
                res.push((child, drop));
                holds.push(hold);
                proof {
                    from = from.push(j as int);
                    assert(pair_views(res@) =~= views.push(child_after(*game, ls[j as int]).0));
                    assert(pair_drops(res@) =~= drops.push(drop));
                    assert forall|i: int| 0 <= i < res@.len() implies (#[trigger] res@[i]).0.wf() by {
                        if i < before.len() {
                            assert(res@[i] == before[i]);
                        }
                    }
                    assert forall|i: int| 0 <= i < holds@.len() implies #[trigger] holds@[i] == (ls[from[i]].len() > 0
                        && ls[from[i]][0] == GameMove::Hold) by {
                        if i < hb.len() {
                            assert(holds@[i] == hb[i]);
                        }
                    }
                }
            }
        }
        j += 1;
    }
    res
}

} // verus!

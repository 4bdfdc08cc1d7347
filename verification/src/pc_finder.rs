//! A perfect clear finder: the drops of each piece of the queue that
//! clear the low rows of the board.
use vstd::prelude::*;
use crate::common::game::{Game, GameMove, GameMoveRes};
use crate::common::play::{GameView, game_run, game_step, game_view, lemma_game_move_step, lemma_game_run_push};

verus! {

/// The moves that turn a piece by `r` quarter turns.
pub open spec fn rot_moves(r: int) -> Seq<GameMove> {
    if r == 1 {
        seq![GameMove::RotateRight]
    } else if r == 2 {
        seq![GameMove::Rotate180]
    } else if r == 3 {
        seq![GameMove::RotateLeft]
    } else {
        Seq::empty()
    }
}

/// The moves that shift a piece by `shift` columns.
pub open spec fn shift_moves(shift: int) -> Seq<GameMove> {
    if shift >= 0 {
        Seq::new(shift as nat, |i: int| GameMove::ShiftRight)
    } else {
        Seq::new((-shift) as nat, |i: int| GameMove::ShiftLeft)
    }
}

/// The moves tried for a piece: a hold when `hold` is set, a turn `r0`, a
/// shift, a soft drop, turns `r1` and `r2`, and a soft drop.
pub open spec fn pc_perm(hold: bool, r0: int, shift: int, r1: int, r2: int) -> Seq<GameMove> {
    (if hold {
        seq![GameMove::Hold]
    } else {
        Seq::empty()
    }) + rot_moves(r0) + shift_moves(shift) + seq![GameMove::SoftDrop] + rot_moves(r1) + rot_moves(r2) + seq![
        GameMove::SoftDrop,
    ]
}

/// The turns after the first soft drop of pair number `p` (0 to 12): none,
/// or a turn `1..4` followed by any turn.
pub open spec fn pair_turns(p: int) -> (int, int) {
    if p == 0 {
        (0, 0)
    } else {
        (1 + (p - 1) / 4, (p - 1) % 4)
    }
}

/// Move list number `k` of the 728 tried: by hold, first turn, shift from
/// -3 to 3, then the pair of later turns.
pub open spec fn pc_perm_at(k: int) -> Seq<GameMove> {
    let rem = k % 364;
    let rem2 = rem % 91;
    pc_perm(k / 364 == 1, rem / 91, rem2 / 13 - 3, pair_turns(rem2 % 13).0, pair_turns(rem2 % 13).1)
}

/// The 728 move lists tried for a piece.
pub open spec fn pc_perms() -> Seq<Seq<GameMove>> {
    Seq::new(728, |k: int| pc_perm_at(k))
}

fn push_rot(moves: &mut Vec<GameMove>, r: i32)
    requires
        0 <= r < 4,
    ensures
        final(moves)@ == old(moves)@ + rot_moves(r as int),
{
    match r {
        0 => {},
        1 => moves.push(GameMove::RotateRight),
        2 => moves.push(GameMove::Rotate180),
        _ => moves.push(GameMove::RotateLeft),
    }
    assert(moves@ =~= old(moves)@ + rot_moves(r as int));
}

fn make_perm(hold: bool, r0: i32, shift: i32, r1: i32, r2: i32) -> (perm: Vec<GameMove>)
    requires
        0 <= r0 < 4,
        -3 <= shift <= 3,
        0 <= r1 < 4,
        0 <= r2 < 4,
    ensures
        perm@ == pc_perm(hold, r0 as int, shift as int, r1 as int, r2 as int),
{
    let mut perm: Vec<GameMove> = Vec::new();
    if hold {
        perm.push(GameMove::Hold);
    }
    push_rot(&mut perm, r0);
    let ghost head = perm@;
    let n: i32 = if shift < 0 {
        -shift
    } else {
        shift
    };
    let mut i: i32 = 0;
    while i < n
        invariant
            0 <= i <= n,
            n == (if shift < 0 {
                -shift
            } else {
                shift as int
            }),
            perm@ == head + shift_moves(shift as int).take(i as int),
        decreases n - i,
    {
        if shift < 0 {
            perm.push(GameMove::ShiftLeft);
        } else {
            perm.push(GameMove::ShiftRight);
        }
        assert(perm@ =~= head + shift_moves(shift as int).take(i + 1));
        i += 1;
    }
    assert(shift_moves(shift as int).take(i as int) =~= shift_moves(shift as int));
    perm.push(GameMove::SoftDrop);
    push_rot(&mut perm, r1);
    push_rot(&mut perm, r2);
    perm.push(GameMove::SoftDrop);
    assert(perm@ =~= pc_perm(hold, r0 as int, shift as int, r1 as int, r2 as int));
    perm
}

/// The 728 move lists tried for a piece: by hold, first turn, shift from -3
/// to 3 and later turns, where a second turn only follows a first.
pub fn permutations() -> (perms: Vec<Vec<GameMove>>)
    ensures
        perms@.map_values(|v: Vec<GameMove>| v@) == pc_perms(),
{
    let mut perms: Vec<Vec<GameMove>> = Vec::new();
    let mut h: i32 = 0;
    while h < 2
        invariant
            0 <= h <= 2,
            perms@.len() == h * 364,
            forall|k: int| 0 <= k < perms@.len() ==> (#[trigger] perms@[k])@ == pc_perm_at(k),
        decreases 2 - h,
    {
        let mut r0: i32 = 0;
        while r0 < 4
            invariant
                0 <= h < 2,
                0 <= r0 <= 4,
                perms@.len() == h * 364 + r0 * 91,
                forall|k: int| 0 <= k < perms@.len() ==> (#[trigger] perms@[k])@ == pc_perm_at(k),
            decreases 4 - r0,
        {
            let mut shift: i32 = -3;
            while shift <= 3
                invariant
                    0 <= h < 2,
                    0 <= r0 < 4,
                    -3 <= shift <= 4,
                    perms@.len() == h * 364 + r0 * 91 + (shift + 3) * 13,
                    forall|k: int| 0 <= k < perms@.len() ==> (#[trigger] perms@[k])@ == pc_perm_at(k),
                decreases 4 - shift,
            {
                let mut r1: i32 = 0;
                while r1 < 4
                    invariant
                        0 <= h < 2,
                        0 <= r0 < 4,
                        -3 <= shift <= 3,
                        0 <= r1 <= 4,
                        perms@.len() == h * 364 + r0 * 91 + (shift + 3) * 13 + (if r1 == 0 {
                            0
                        } else {
                            1 + (r1 - 1) * 4
                        }),
                        forall|k: int| 0 <= k < perms@.len() ==> (#[trigger] perms@[k])@ == pc_perm_at(k),
                    decreases 4 - r1,
                {
                    let mut r2: i32 = 0;
                    while r2 < 4
                        invariant
                            0 <= h < 2,
                            0 <= r0 < 4,
                            -3 <= shift <= 3,
                            0 <= r1 < 4,
                            0 <= r2 <= 4,
                            perms@.len() == h * 364 + r0 * 91 + (shift + 3) * 13 + (if r1 == 0 {
                                if r2 == 0 {
                                    0
                                } else {
                                    1
                                }
                            } else {
                                1 + (r1 - 1) * 4 + r2
                            }),
                            forall|k: int| 0 <= k < perms@.len() ==> (#[trigger] perms@[k])@ == pc_perm_at(k),
                        decreases 4 - r2,
                    {
                        if !(r1 == 0 && r2 != 0) {
                            let perm = make_perm(h == 1, r0, shift, r1, r2);
                            let ghost k = perms@.len() as int;
                            let ghost p = if r1 == 0 {
                                0
                            } else {
                                1 + (r1 - 1) * 4 + r2
                            };
                            proof {
                                assert(0 <= p < 13);
                                assert(k == h * 364 + r0 * 91 + (shift + 3) * 13 + p);
                                assert(k / 364 == h && k % 364 == r0 * 91 + (shift + 3) * 13 + p) by (nonlinear_arith)
                                    requires
                                        k == h * 364 + r0 * 91 + (shift + 3) * 13 + p,
                                        0 <= r0 < 4,
                                        0 <= shift + 3 < 7,
                                        0 <= p < 13,
                                        0 <= h,
                                ;
                                let rem = r0 * 91 + (shift + 3) * 13 + p;
                                assert(rem / 91 == r0 && rem % 91 == (shift + 3) * 13 + p) by (nonlinear_arith)
                                    requires
                                        rem == r0 * 91 + (shift + 3) * 13 + p,
                                        0 <= r0,
                                        0 <= shift + 3 < 7,
                                        0 <= p < 13,
                                ;
                                let rem2 = (shift + 3) * 13 + p;
                                assert(rem2 / 13 == shift + 3 && rem2 % 13 == p) by (nonlinear_arith)
                                    requires
                                        rem2 == (shift + 3) * 13 + p,
                                        0 <= shift + 3,
                                        0 <= p < 13,
                                ;
                                if r1 != 0 {
                                    assert((p - 1) / 4 == r1 - 1 && (p - 1) % 4 == r2) by (nonlinear_arith)
                                        requires
                                            p - 1 == (r1 - 1) * 4 + r2,
                                            0 <= r1 - 1,
                                            0 <= r2 < 4,
                                    ;
                                }
                                assert(pc_perm_at(k) == perm@);
                            }
                            perms.push(perm);
                        }
                        r2 += 1;
                    }
                    r1 += 1;
                }
                shift += 1;
            }
            r0 += 1;
        }
        h += 1;
    }
    assert(perms@.map_values(|v: Vec<GameMove>| v@) =~= pc_perms());
    perms
}

/// The moves only move the falling piece.
pub open spec fn piece_only(l: Seq<GameMove>) -> bool {
    forall|i: int| 0 <= i < l.len() ==> l[i] != GameMove::Hold && l[i] != GameMove::HardDrop
}

/// Moves of the falling piece leave the cells, the held piece, the queue
/// and the hold allowance as they were.
pub proof fn lemma_piece_only_run(v: GameView, l: Seq<GameMove>)
    requires
        piece_only(l),
    ensures
        game_run(v, l).matrix == v.matrix,
        game_run(v, l).hold == v.hold,
        game_run(v, l).queue == v.queue,
        game_run(v, l).can_hold == v.can_hold,
    decreases l.len(),
{
    if l.len() > 0 {
        assert(l[0] != GameMove::Hold && l[0] != GameMove::HardDrop);
        assert forall|i: int| 0 <= i < l.drop_first().len() implies l.drop_first()[i] != GameMove::Hold
            && l.drop_first()[i] != GameMove::HardDrop by {
            assert(l.drop_first()[i] == l[i + 1]);
        }
        lemma_piece_only_run(game_step(v, l[0]).0, l.drop_first());
    }
}

/// Running `a` then `b` is running `a + b`.
pub proof fn lemma_run_append(v: GameView, a: Seq<GameMove>, b: Seq<GameMove>)
    ensures
        game_run(v, a + b) == game_run(game_run(v, a), b),
    decreases a.len(),
{
    if a.len() > 0 {
        assert((a + b).drop_first() =~= a.drop_first() + b);
        assert((a + b)[0] == a[0]);
        lemma_run_append(game_step(v, a[0]).0, a.drop_first(), b);
    } else {
        assert(a + b =~= b);
    }
}

/// Each tried list is a hold, when it holds, then moves of the piece only.
pub proof fn lemma_perm_shape(k: int)
    requires
        0 <= k < 728,
    ensures
        ({
            let l = pc_perm_at(k);
            let h = k / 364 == 1;
            &&& l.contains(GameMove::Hold) == h
            &&& h ==> l[0] == GameMove::Hold && piece_only(l.drop_first())
            &&& !h ==> piece_only(l)
        }),
{
    let rem = k % 364;
    let rem2 = rem % 91;
    let h = k / 364 == 1;
    let l = pc_perm_at(k);
    let body = rot_moves(rem / 91) + shift_moves(rem2 / 13 - 3) + seq![GameMove::SoftDrop] + rot_moves(
        pair_turns(rem2 % 13).0,
    ) + rot_moves(pair_turns(rem2 % 13).1) + seq![GameMove::SoftDrop];
    assert forall|i: int| 0 <= i < body.len() implies body[i] != GameMove::Hold && body[i] != GameMove::HardDrop by {
        let a = rot_moves(rem / 91);
        let b = shift_moves(rem2 / 13 - 3);
        let c = rot_moves(pair_turns(rem2 % 13).0);
        let d = rot_moves(pair_turns(rem2 % 13).1);
        assert(body == a + b + seq![GameMove::SoftDrop] + c + d + seq![GameMove::SoftDrop]);
        if i < a.len() {
            assert(body[i] == a[i]);
        } else if i < a.len() + b.len() {
            assert(body[i] == b[i - a.len()]);
        } else if i < a.len() + b.len() + 1 {
        } else if i < a.len() + b.len() + 1 + c.len() {
            assert(body[i] == c[i - a.len() - b.len() - 1]);
        } else if i < a.len() + b.len() + 1 + c.len() + d.len() {
            assert(body[i] == d[i - a.len() - b.len() - 1 - c.len()]);
        }
    }
    if h {
        assert(l =~= seq![GameMove::Hold] + body);
        assert(l.drop_first() =~= body);
        assert(l[0] == GameMove::Hold);
    } else {
        assert(l =~= body);
        if l.contains(GameMove::Hold) {
            let i = choose|i: int| 0 <= i < l.len() && l[i] == GameMove::Hold;
            assert(body[i] != GameMove::Hold);
        }
    }
}

/// The first of rows `i..=4` of `m` that is empty, or 0 when none is.
pub open spec fn first_empty_from(m: Seq<u16>, i: int) -> int
    decreases 5 - i,
{
    if i > 4 {
        0
    } else if m[i] == 0 {
        i
    } else {
        first_empty_from(m, i + 1)
    }
}

/// The game after moves `l` and a hard drop from state `v`.
#[verifier::opaque]
pub open spec fn pc_child(v: GameView, l: Seq<GameMove>) -> GameView {
    game_step(game_run(v, l), GameMove::HardDrop).0
}

/// The drop after moves `l` leaves the lowest empty row of `v` (among rows
/// 0 to 4, row 0 when none is) empty.
pub open spec fn pc_kept(v: GameView, l: Seq<GameMove>) -> bool {
    pc_child(v, l).matrix[first_empty_from(v.matrix, 0)] == 0
}

/// The cells of the child of moves `l`, and whether `l` holds.
pub open spec fn pc_key(v: GameView, l: Seq<GameMove>) -> (Seq<u16>, bool) {
    (pc_child(v, l).matrix, l.contains(GameMove::Hold))
}

proof fn lemma_first_empty_bound(m: Seq<u16>, i: int)
    requires
        0 <= i,
    ensures
        0 <= first_empty_from(m, i) <= 4,
    decreases 5 - i,
{
    if i <= 4 && m[i] != 0 {
        lemma_first_empty_bound(m, i + 1);
    }
}

// The lowest empty row among rows 0 to 4, or 0 when none is.
proof fn lemma_first_empty_from(m: Seq<u16>, i: int)
    requires
        0 <= i <= 5,
        m.len() >= 5,
        forall|j: int| 0 <= j < i ==> m[j] != 0,
    ensures
        (exists|k: int| i <= k <= 4 && m[k] == 0) ==> i <= first_empty_from(m, i) <= 4 && m[first_empty_from(m, i)]
            == 0 && forall|j: int| 0 <= j < first_empty_from(m, i) ==> m[j] != 0,
        (forall|k: int| i <= k <= 4 ==> m[k] != 0) ==> first_empty_from(m, i) == 0,
    decreases 5 - i,
{
    if i <= 4 && m[i] != 0 {
        lemma_first_empty_from(m, i + 1);
        if exists|k: int| i <= k <= 4 && m[k] == 0 {
            let k = choose|k: int| i <= k <= 4 && m[k] == 0;
            assert(i + 1 <= k);
        }
    }
}

/// The row that every kept child must leave empty is the lowest empty row
/// among rows 0 to 4 of the board, or row 0 when those are all filled.
pub proof fn lemma_first_empty_row(m: Seq<u16>)
    requires
        m.len() >= 5,
    ensures
        (exists|i: int| 0 <= i <= 4 && m[i] == 0) ==> 0 <= first_empty_from(m, 0) <= 4 && m[first_empty_from(m, 0)]
            == 0 && forall|j: int| 0 <= j < first_empty_from(m, 0) ==> m[j] != 0,
        (forall|i: int| 0 <= i <= 4 ==> m[i] != 0) ==> first_empty_from(m, 0) == 0,
{
    lemma_first_empty_from(m, 0);
}

fn empty_row(game: &Game) -> (row: usize)
    ensures
        row == first_empty_from(game.board.matrix@, 0),
{
    let mut i: usize = 0;
    while i <= 4
        invariant
            0 <= i <= 5,
            first_empty_from(game.board.matrix@, 0) == first_empty_from(game.board.matrix@, i as int),
        decreases 5 - i,
    {
        if game.board.matrix[i] == 0 {
            return i;
        }
        i += 1;
    }
    0
}

// The game after the moves and a hard drop, and whether the moves hold.
fn play_perm(game: &Game, perm: &Vec<GameMove>) -> (res: (Game, bool))
    requires
        game.wf(),
    ensures
        res.0.wf(),
        game_view(res.0) == pc_child(game_view(*game), perm@),
        res.1 == perm@.contains(GameMove::Hold),
{
    let mut child = game.duplicate();
    assert(game_view(child) == game_view(*game));
    assert(perm@.take(0) =~= Seq::<GameMove>::empty());
    let mut hold = false;
    let mut k: usize = 0;
    while k < perm.len()
        invariant
            0 <= k <= perm@.len(),
            child.wf(),
            game_view(child) == game_run(game_view(*game), perm@.take(k as int)),
            hold == perm@.take(k as int).contains(GameMove::Hold),
        decreases perm@.len() - k,
    {
        if perm[k] == GameMove::Hold {
            hold = true;
        }
        let ghost before = child;
        let r = child.make_move(&perm[k]);
        proof {
            lemma_game_move_step(before, child, r, perm@[k as int]);
            lemma_game_run_push(game_view(*game), perm@.take(k as int), perm@[k as int]);
            assert(perm@.take(k as int).push(perm@[k as int]) =~= perm@.take(k + 1));
            let s0 = perm@.take(k as int);
            let s1 = perm@.take(k + 1);
            assert(s1 == s0.push(perm@[k as int]));
            if s1.contains(GameMove::Hold) && !s0.contains(GameMove::Hold) {
                let i = choose|i: int| 0 <= i < s1.len() && s1[i] == GameMove::Hold;
                if i < k {
                    assert(s0[i] == GameMove::Hold);
                }
            }
            if s0.contains(GameMove::Hold) {
                let i = choose|i: int| 0 <= i < s0.len() && s0[i] == GameMove::Hold;
                assert(s1[i] == GameMove::Hold);
            }
            if perm@[k as int] == GameMove::Hold {
                assert(s1[k as int] == GameMove::Hold);
            }
        }
        k += 1;
    }
    proof {
        assert(perm@.take(k as int) =~= perm@);
    }
    let ghost before = child;
    let r = child.make_move(&GameMove::HardDrop);
    proof {
        lemma_game_move_step(before, child, r, GameMove::HardDrop);
        reveal(pc_child);
    }
    (child, hold)
}

/// `views` and `moves` list the children of state `v` for the move lists
/// `perms[0..n]`, child `i` made by list `from[i]`: one for each key of a
/// kept drop, made by the last list with that key.
pub open spec fn pc_children_listed(
    v: GameView,
    perms: Seq<Seq<GameMove>>,
    n: int,
    views: Seq<GameView>,
    moves: Seq<Seq<GameMove>>,
    from: Seq<int>,
) -> bool {
    &&& views.len() == moves.len() == from.len()
    &&& forall|i: int| 0 <= i < from.len() ==> 0 <= #[trigger] from[i] < n
    &&& forall|a: int, b: int|
        0 <= a < b < from.len() ==> pc_key(v, perms[#[trigger] from[a]]) != pc_key(v, perms[#[trigger] from[b]])
    &&& forall|i: int|
        0 <= i < from.len() ==> {
            let j = #[trigger] from[i];
            &&& pc_kept(v, perms[j])
            &&& views[i] == pc_child(v, perms[j])
            &&& moves[i] == perms[j]
            &&& forall|j2: int| j < j2 < n && pc_kept(v, perms[j2]) ==> pc_key(v, perms[j2]) != pc_key(v, perms[j])
        }
    &&& forall|j: int|
        0 <= j < n && pc_kept(v, perms[j]) ==> exists|i: int|
            0 <= i < from.len() && pc_key(v, perms[#[trigger] from[i]]) == pc_key(v, perms[j])
}

#[verifier::rlimit(40)]
proof fn lemma_pc_step(
    v: GameView,
    perms: Seq<Seq<GameMove>>,
    n: int,
    views: Seq<GameView>,
    moves: Seq<Seq<GameMove>>,
    from: Seq<int>,
)
    requires
        0 <= n < perms.len(),
        pc_children_listed(v, perms, n, views, moves, from),
    ensures
        !pc_kept(v, perms[n]) ==> pc_children_listed(v, perms, n + 1, views, moves, from),
        pc_kept(v, perms[n]) && !(exists|i: int| 0 <= i < from.len() && pc_key(v, perms[#[trigger] from[i]]) == pc_key(v, perms[n]))
            ==> pc_children_listed(v, perms, n + 1, views.push(pc_child(v, perms[n])), moves.push(perms[n]), from.push(n)),
        forall|i: int|
            0 <= i < from.len() && pc_kept(v, perms[n]) && pc_key(v, perms[from[i]]) == pc_key(v, perms[n]) ==> pc_children_listed(
                v,
                perms,
                n + 1,
                views.update(i, pc_child(v, perms[n])),
                moves.update(i, perms[n]),
                from.update(i, n),
            ),
{
    let kn = pc_key(v, perms[n]);
    if !pc_kept(v, perms[n]) {
    } else if !(exists|i: int| 0 <= i < from.len() && pc_key(v, perms[#[trigger] from[i]]) == kn) {
        let f2 = from.push(n);
        assert forall|i: int| 0 <= i < f2.len() implies 0 <= #[trigger] f2[i] < n + 1 by {
            if i < from.len() {
                assert(f2[i] == from[i]);
            }
        }
        assert forall|a: int, b: int| 0 <= a < b < f2.len() implies pc_key(v, perms[#[trigger] f2[a]]) != pc_key(
            v,
            perms[#[trigger] f2[b]],
        ) by {
            assert(f2[a] == from[a]);
            if b < from.len() {
                assert(f2[b] == from[b]);
            }
        }
        assert forall|i: int| 0 <= i < f2.len() implies {
            let j = #[trigger] f2[i];
            &&& pc_kept(v, perms[j])
            &&& views.push(pc_child(v, perms[n]))[i] == pc_child(v, perms[j])
            &&& moves.push(perms[n])[i] == perms[j]
            &&& forall|j2: int| j < j2 < n + 1 && pc_kept(v, perms[j2]) ==> pc_key(v, perms[j2]) != pc_key(v, perms[j])
        } by {
            if i < from.len() {
                assert(f2[i] == from[i]);
            }
        }
        assert forall|j: int| 0 <= j < n + 1 && pc_kept(v, perms[j]) implies exists|i: int|
            0 <= i < f2.len() && pc_key(v, perms[#[trigger] f2[i]]) == pc_key(v, perms[j]) by {
            if j < n {
                let a = choose|a: int| 0 <= a < from.len() && pc_key(v, perms[#[trigger] from[a]]) == pc_key(v, perms[j]);
                assert(f2[a] == from[a]);
            } else {
                assert(f2[from.len() as int] == n);
            }
        }
    }
    assert forall|i: int|
        0 <= i < from.len() && pc_kept(v, perms[n]) && pc_key(v, perms[from[i]]) == kn implies pc_children_listed(
        v,
        perms,
        n + 1,
        views.update(i, pc_child(v, perms[n])),
        moves.update(i, perms[n]),
        from.update(i, n),
    ) by {
        let f2 = from.update(i, n);
        assert forall|x: int| 0 <= x < f2.len() implies 0 <= #[trigger] f2[x] < n + 1 by {
            if x != i {
                assert(f2[x] == from[x]);
            }
        }
        assert forall|a: int, b: int| 0 <= a < b < f2.len() implies pc_key(v, perms[#[trigger] f2[a]]) != pc_key(
            v,
            perms[#[trigger] f2[b]],
        ) by {
            if a != i {
                assert(f2[a] == from[a]);
            }
            if b != i {
                assert(f2[b] == from[b]);
            }
            if a == i {
                assert(pc_key(v, perms[from[b]]) != pc_key(v, perms[from[i]]));
            }
            if b == i {
                assert(pc_key(v, perms[from[a]]) != pc_key(v, perms[from[i]]));
            }
        }
        assert forall|x: int| 0 <= x < f2.len() implies {
            let j = #[trigger] f2[x];
            &&& pc_kept(v, perms[j])
            &&& views.update(i, pc_child(v, perms[n]))[x] == pc_child(v, perms[j])
            &&& moves.update(i, perms[n])[x] == perms[j]
            &&& forall|j2: int| j < j2 < n + 1 && pc_kept(v, perms[j2]) ==> pc_key(v, perms[j2]) != pc_key(v, perms[j])
        } by {
            if x != i {
                assert(f2[x] == from[x]);
                assert(pc_key(v, perms[from[x]]) != pc_key(v, perms[from[i]]));
            }
        }
        assert forall|j: int| 0 <= j < n + 1 && pc_kept(v, perms[j]) implies exists|x: int|
            0 <= x < f2.len() && pc_key(v, perms[#[trigger] f2[x]]) == pc_key(v, perms[j]) by {
            if j < n {
                let a = choose|a: int| 0 <= a < from.len() && pc_key(v, perms[#[trigger] from[a]]) == pc_key(v, perms[j]);
                if a == i {
                    assert(f2[i] == n);
                } else {
                    assert(f2[a] == from[a]);
                }
            } else {
                assert(f2[i] == n);
            }
        }
    }
}

/// The games of a list of children with moves.
pub open spec fn pc_views(res: Seq<(Game, Vec<GameMove>)>) -> Seq<GameView> {
    res.map_values(|e: (Game, Vec<GameMove>)| game_view(e.0))
}

/// The moves of a list of children.
pub open spec fn pc_moves(res: Seq<(Game, Vec<GameMove>)>) -> Seq<Seq<GameMove>> {
    res.map_values(|e: (Game, Vec<GameMove>)| e.1@)
}

/// The games that one piece of the queue can leave: for each tried list,
/// the game after its moves and a hard drop, with the moves, when the
/// lowest empty row of rows 0 to 4 stays empty; of the children with the
/// same cells that both hold or both do not, the one of the last list is
/// kept.
#[verifier::rlimit(50)]
pub fn generate_child_states(game: &Game) -> (res: Vec<(Game, Vec<GameMove>)>)
    requires
        game.wf(),
    ensures
        forall|i: int| 0 <= i < res@.len() ==> (#[trigger] res@[i]).0.wf(),
        exists|from: Seq<int>|
            #[trigger] pc_children_listed(game_view(*game), pc_perms(), 728, pc_views(res@), pc_moves(res@), from),
{
    let ghost v = game_view(*game);
    let ghost ps = pc_perms();
    let perms = permutations();
    let row = empty_row(game);
    proof {
        assert(perms@.map_values(|x: Vec<GameMove>| x@).len() == perms@.len());
    }
    let mut res: Vec<(Game, Vec<GameMove>)> = Vec::new();
    let mut holds: Vec<bool> = Vec::new();
    let ghost mut from: Seq<int> = Seq::empty();
    let mut j: usize = 0;
    while j < perms.len()
        invariant
            0 <= j <= perms@.len(),
            perms@.len() == 728,
            game.wf(),
            v == game_view(*game),
            ps == pc_perms(),
            perms@.map_values(|x: Vec<GameMove>| x@) == ps,
            row == first_empty_from(v.matrix, 0),
            pc_children_listed(v, ps, j as int, pc_views(res@), pc_moves(res@), from),
            holds@.len() == res@.len(),
            forall|i: int| 0 <= i < holds@.len() ==> #[trigger] holds@[i] == ps[from[i]].contains(GameMove::Hold),
            forall|i: int| 0 <= i < res@.len() ==> (#[trigger] res@[i]).0.wf(),
        decreases perms@.len() - j,
    {
        proof {
            assert(perms@.map_values(|x: Vec<GameMove>| x@)[j as int] == perms@[j as int]@);
            lemma_first_empty_bound(v.matrix, 0);
        }
        let (child, hold) = play_perm(game, &perms[j]);
        let ghost views = pc_views(res@);
        let ghost moves = pc_moves(res@);
        proof {
            lemma_pc_step(v, ps, j as int, views, moves, from);
        }
        if child.board.matrix[row] == 0 {
            let mut found: usize = res.len();
            let mut i: usize = 0;
            while i < res.len() && found == res.len()
                invariant
                    0 <= i <= res@.len(),
                    found <= res@.len(),
                    views == pc_views(res@),
                    from.len() == res@.len(),
                    holds@.len() == res@.len(),
                    forall|a: int| 0 <= a < holds@.len() ==> #[trigger] holds@[a] == ps[from[a]].contains(GameMove::Hold),
                    forall|a: int| 0 <= a < from.len() ==> views[a] == pc_child(v, ps[#[trigger] from[a]]),
                    found < res@.len() ==> pc_key(v, ps[from[found as int]]) == (child.board.matrix@, hold),
                    found == res@.len() ==> forall|a: int| 0 <= a < i ==> pc_key(v, ps[#[trigger] from[a]]) != (child.board.matrix@, hold),
                decreases res@.len() - i,
            {
                proof {
                    assert(views[i as int] == game_view(res@[i as int].0));
                    assert(holds@[i as int] == ps[from[i as int]].contains(GameMove::Hold));
                }
                if holds[i] == hold && res[i].0.board == child.board {
                    assert(pc_key(v, ps[from[i as int]]) == (child.board.matrix@, hold)) by {
                        assert(res@[i as int].0.board.matrix@ =~= child.board.matrix@);
                    }
                    found = i;
                } else {
                    proof {
                        if holds@[i as int] == hold {
                            assert(res@[i as int].0.board.matrix@ != child.board.matrix@) by {
                                if res@[i as int].0.board.matrix@ == child.board.matrix@ {
                                    assert forall|k: int| 0 <= k < 24 implies res@[i as int].0.board.matrix[k] == child.board.matrix[k] by {
                                        assert(res@[i as int].0.board.matrix@[k] == child.board.matrix@[k]);
                                    }
                                }
                            }
                        }
                    }
                }
                i += 1;
            }
            let ghost kn = pc_key(v, ps[j as int]);
            proof {
                assert(kn == (child.board.matrix@, hold));
            }
            let moves_j = copy_moves(&perms[j]);
            if found < res.len() {
                let ghost before = res@;
                let ghost hb = holds@;
                res.set(found, (child, moves_j));
                proof {
                    assert(pc_key(v, ps[from[found as int]]) == kn);
                    from = from.update(found as int, j as int);
                    assert(pc_views(res@) =~= views.update(found as int, pc_child(v, ps[j as int])));
                    assert(pc_moves(res@) =~= moves.update(found as int, ps[j as int]));
                    assert forall|i: int| 0 <= i < res@.len() implies (#[trigger] res@[i]).0.wf() by {
                        if i != found {
                            assert(res@[i] == before[i]);
                        }
                    }
                    assert forall|i: int| 0 <= i < holds@.len() implies #[trigger] holds@[i] == ps[from[i]].contains(
                        GameMove::Hold,
                    ) by {
                        if i == found {
                        }
                    }
                }
            } else {
                proof {
                    assert(!(exists|i: int| 0 <= i < from.len() && pc_key(v, ps[#[trigger] from[i]]) == kn));
                }
                let ghost before = res@;
                let ghost hb = holds@;
                res.push((child, moves_j));
                holds.push(hold);
                proof {
                    from = from.push(j as int);
                    assert(pc_views(res@) =~= views.push(pc_child(v, ps[j as int])));
                    assert(pc_moves(res@) =~= moves.push(ps[j as int]));
                    assert forall|i: int| 0 <= i < res@.len() implies (#[trigger] res@[i]).0.wf() by {
                        if i < before.len() {
                            assert(res@[i] == before[i]);
                        }
                    }
                    assert forall|i: int| 0 <= i < holds@.len() implies #[trigger] holds@[i] == ps[from[i]].contains(
                        GameMove::Hold,
                    ) by {
                        if i < hb.len() {
                            assert(holds@[i] == hb[i]);
                        }
                    }
                }
            }
        }
        j += 1;
    }
    res
}

fn copy_moves(moves: &Vec<GameMove>) -> (out: Vec<GameMove>)
    ensures
        out@ == moves@,
{
    let mut out: Vec<GameMove> = Vec::new();
    let mut j: usize = 0;
    while j < moves.len()
        invariant
            0 <= j <= moves@.len(),
            out@ == moves@.take(j as int),
        decreases moves@.len() - j,
    {
        out.push(moves[j]);
        assert(out@ =~= moves@.take(j + 1));
        j += 1;
    }
    assert(moves@.take(j as int) =~= moves@);
    out
}

/// A drop of one of the tried lists lowers the queue.
proof fn lemma_pc_child_queue(v: GameView, k: int)
    requires
        0 <= k < 728,
        v.queue.len() > 0,
    ensures
        pc_child(v, pc_perm_at(k)).queue.len() < v.queue.len(),
{
    reveal(pc_child);
    let l = pc_perm_at(k);
    lemma_perm_shape(k);
    if k / 364 == 1 {
        assert(l =~= seq![GameMove::Hold] + l.drop_first());
        lemma_run_append(v, seq![GameMove::Hold], l.drop_first());
        assert(game_run(v, seq![GameMove::Hold]) == game_step(v, GameMove::Hold).0) by {
            lemma_game_run_push(v, Seq::<GameMove>::empty(), GameMove::Hold);
            assert(Seq::<GameMove>::empty().push(GameMove::Hold) =~= seq![GameMove::Hold]);
        }
        lemma_piece_only_run(game_step(v, GameMove::Hold).0, l.drop_first());
    } else {
        lemma_piece_only_run(v, l);
    }
}

/// Two tried lists with the same key leave games equally able to reach a
/// perfect clear.
proof fn lemma_pc_same_key(v: GameView, k1: int, k2: int)
    requires
        0 <= k1 < 728,
        0 <= k2 < 728,
        pc_key(v, pc_perm_at(k1)) == pc_key(v, pc_perm_at(k2)),
    ensures
        pc_possible(pc_child(v, pc_perm_at(k1))) == pc_possible(pc_child(v, pc_perm_at(k2))),
{
    reveal(pc_child);
    let l1 = pc_perm_at(k1);
    let l2 = pc_perm_at(k2);
    lemma_perm_shape(k1);
    lemma_perm_shape(k2);
    let a1 = game_run(v, l1);
    let a2 = game_run(v, l2);
    if k1 / 364 == 1 {
        assert(l1 =~= seq![GameMove::Hold] + l1.drop_first());
        lemma_run_append(v, seq![GameMove::Hold], l1.drop_first());
        assert(game_run(v, seq![GameMove::Hold]) == game_step(v, GameMove::Hold).0) by {
            lemma_game_run_push(v, Seq::<GameMove>::empty(), GameMove::Hold);
            assert(Seq::<GameMove>::empty().push(GameMove::Hold) =~= seq![GameMove::Hold]);
        }
        lemma_piece_only_run(game_step(v, GameMove::Hold).0, l1.drop_first());
        assert(l2 =~= seq![GameMove::Hold] + l2.drop_first());
        lemma_run_append(v, seq![GameMove::Hold], l2.drop_first());
        lemma_piece_only_run(game_step(v, GameMove::Hold).0, l2.drop_first());
    } else {
        lemma_piece_only_run(v, l1);
        lemma_piece_only_run(v, l2);
    }
    assert(a1.matrix == a2.matrix && a1.hold == a2.hold && a1.queue == a2.queue && a1.can_hold == a2.can_hold);
    let c1 = pc_child(v, l1);
    let c2 = pc_child(v, l2);
    if a1.queue.len() > 0 {
        assert(c1.matrix == c2.matrix);
        assert(c1 == c2);
    } else {
        assert(c1.matrix == c2.matrix);
        assert(c1.queue.len() == 0 && c2.queue.len() == 0);
    }
}

/// Some drops of the queue's pieces, each by one of the tried lists, leave
/// the bottom row empty.
pub open spec fn pc_possible(v: GameView) -> bool
    decreases v.queue.len(),
{
    v.matrix[0] == 0 || (v.queue.len() > 0 && exists|k: int|
        0 <= k < 728 && pc_kept(v, pc_perm_at(k)) && pc_child(v, pc_perm_at(k)).queue.len() < v.queue.len()
            && pc_possible(#[trigger] pc_child(v, pc_perm_at(k))))
}

/// Moves for the pieces of the queue that leave the bottom row of the board
/// empty: none when it already is, else the moves of a child (each
/// followed by a hard drop) from which a perfect clear is found, or nothing
/// when none is.
pub fn solve_pc(game: &Game) -> (res: Option<Vec<GameMove>>)
    requires
        game.wf(),
    ensures
        res is Some <==> pc_possible(game_view(*game)),
        res matches Some(ms) ==> game_run(game_view(*game), ms@).matrix[0] == 0,
    decreases game.queue_pieces@.len(),
{
    let ghost v = game_view(*game);
    if game.board.matrix[0] == 0 {
        let moves: Vec<GameMove> = Vec::new();
        assert(game_run(v, moves@) == v);
        return Some(moves);
    }
    if game.queue_pieces.len() == 0 {
        return None;
    }
    let children = generate_child_states(game);
    let ghost ps = pc_perms();
    let ghost from = choose|from: Seq<int>|
        #[trigger] pc_children_listed(v, ps, 728, pc_views(children@), pc_moves(children@), from);
    let mut i: usize = 0;
    while i < children.len()
        invariant
            0 <= i <= children@.len(),
            v == game_view(*game),
            v.queue.len() > 0,
            v.matrix[0] != 0,
            ps == pc_perms(),
            pc_children_listed(v, ps, 728, pc_views(children@), pc_moves(children@), from),
            forall|a: int| 0 <= a < children@.len() ==> (#[trigger] children@[a]).0.wf(),
            forall|a: int| 0 <= a < i ==> !pc_possible(game_view(#[trigger] children@[a].0)),
        decreases children@.len() - i,
    {
        let ghost j = from[i as int];
        proof {
            assert(pc_views(children@)[i as int] == game_view(children@[i as int].0));
            assert(pc_moves(children@)[i as int] == children@[i as int].1@);
            assert(0 <= j < 728);
            lemma_pc_child_queue(v, j);
        }
        match solve_pc(&children[i].0) {
            Some(child_moves) => {
                let mut moves = copy_moves(&children[i].1);
                moves.push(GameMove::HardDrop);
                let mut k: usize = 0;
                let ghost head = moves@;
                while k < child_moves.len()
                    invariant
                        0 <= k <= child_moves@.len(),
                        moves@ == head + child_moves@.take(k as int),
                    decreases child_moves@.len() - k,
                {
                    moves.push(child_moves[k]);
                    assert(moves@ =~= head + child_moves@.take(k + 1));
                    k += 1;
                }
                proof {
                    assert(child_moves@.take(k as int) =~= child_moves@);
                    let l = ps[j];
                    assert(head == l.push(GameMove::HardDrop));
                    lemma_run_append(v, head, child_moves@);
                    lemma_game_run_push(v, l, GameMove::HardDrop);
                    reveal(pc_child);
                    assert(game_run(v, head) == game_view(children@[i as int].0));
                    assert(pc_possible(v)) by {
                        assert(pc_kept(v, pc_perm_at(j)));
                        assert(pc_possible(pc_child(v, pc_perm_at(j))));
                    }
                }
                return Some(moves);
            },
            None => {},
        }
        i += 1;
    }
    proof {
        if pc_possible(v) {
            let k = choose|k: int|
                0 <= k < 728 && pc_kept(v, pc_perm_at(k)) && pc_child(v, pc_perm_at(k)).queue.len() < v.queue.len()
                    && pc_possible(#[trigger] pc_child(v, pc_perm_at(k)));
            assert(pc_kept(v, ps[k]));
            let a = choose|a: int| 0 <= a < from.len() && pc_key(v, ps[#[trigger] from[a]]) == pc_key(v, ps[k]);
            lemma_pc_same_key(v, from[a], k);
            assert(pc_views(children@)[a] == game_view(children@[a].0));
            assert(!pc_possible(game_view(children@[a].0)));
        }
    }
    None
}

} // verus!

//! The center-four-wide bot: a search over the states of its areas that
//! prefers moves keeping it building up, or clearing down, as it was.
use vstd::prelude::*;
use crate::c4w::computed::{C4WTransitions, small_lr};
use crate::c4w::consts::AI_MAX_DEPTH;
use crate::c4w::piece::PieceType;
use crate::c4w::state::{
    center_options,
    lr_options,
    child_moves,
    lemma_state_move_child,
    move_has_child,
    move_piece,
    side_heights,
    state_of_game,
    C4WConstructErr,
    C4WMoveOptions,
    C4WState,
    C4WStateChange,
    lemma_state_moves_ok,
    lemma_undo_move_restores,
    min3,
    move_made,
    move_ok,
    sides_without_holes,
    state_moves,
    trim_lr,
    trimmed,
};
use crate::c4w::computed::center_bits_match;
use crate::common::board::{cell, lemma_height_props};
use crate::bits::{has_bit, lemma_bits_equal};
use crate::common::game::{Game, GameMove};
use crate::api::APIRequest;
use crate::common::piece::{piece_type_of, spawn_piece, step_down};

verus! {

/// `b` to the power `e`.
pub open spec fn power(b: int, e: nat) -> int
    decreases e,
{
    if e == 0 {
        1
    } else {
        b * power(b, (e - 1) as nat)
    }
}

proof fn lemma_power_grows(b: int, e: nat)
    requires
        b >= 1,
    ensures
        1 <= power(b, e) <= power(b, e + 1),
    decreases e,
{
    if e > 0 {
        lemma_power_grows(b, (e - 1) as nat);
    }
    assert(power(b, e + 1) == b * power(b, e));
    assert(b * power(b, e) >= power(b, e)) by (nonlinear_arith)
        requires
            b >= 1,
            power(b, e) >= 1,
    ;
}

/// An error of the bot.
#[derive(Debug)]
pub struct AIGameEvalErr(pub String);

impl AIGameEvalErr {
    /// The error with the given message.
    pub fn from_str(text: &str) -> (e: Self)
        ensures
            e.0@ == text@,
    {
        AIGameEvalErr(String::from_str(text))
    }
}

/// What the bot answers for a game: how many states its search counted
/// below the chosen move, and the moves that play it.
pub struct AIGameEval {
    pub score: Option<i64>,
    pub moves: Vec<GameMove>,
}

/// The bot can search game `game` with transitions `tr`: the board's
/// metadata is right and, once a piece is held, the side areas have no hole
/// and every area's state is listed.
pub open spec fn game_searchable(tr: C4WTransitions, game: Game) -> bool {
    &&& game.board.wf()
    &&& game.hold_piece is Some ==> {
        &&& sides_without_holes(game)
        &&& forall|c: u16| center_bits_match(c, game.board.matrix@) ==> tr.has_center(c)
        &&& tr.has_lr(true, trimmed(side_heights(game, true)))
        &&& tr.has_lr(false, trimmed(side_heights(game, false)))
    }
}

/// The transitions' counts stay within `i64` over a search of the bot's
/// depth.
pub open spec fn search_fits(tr: C4WTransitions) -> bool {
    exists|b: nat| b >= 1 && tr.children_at_most(b) && power(6 * b as int, (AI_MAX_DEPTH - 1) as nat) <= i64::MAX
}

/// Transitions with at most 240 children per list keep the search's counts
/// within `i64`.
pub proof fn lemma_search_fits(tr: C4WTransitions)
    requires
        tr.children_at_most(240),
    ensures
        search_fits(tr),
{
    reveal_with_fuel(power, 6);
    assert(power(1440, 5) == 1440 * 1440 * 1440 * 1440 * 1440);
    assert(1440 * 1440 * 1440 * 1440 * 1440 <= i64::MAX) by (nonlinear_arith);
    assert(tr.children_at_most(240) && power(6 * 240nat as int, (AI_MAX_DEPTH - 1) as nat) <= i64::MAX);
}

/// The game moves that play move `m` of state `s`: a hold when it plays the
/// held piece, the moves listed for its child, and a hard drop.
pub open spec fn eval_moves(tr: C4WTransitions, s: C4WState, m: C4WMoveOptions) -> Seq<GameMove> {
    let p = move_piece(s, m);
    let body = match m.change {
        C4WStateChange::Center(c) => child_moves(tr.center_children(s.center)[p]@, c),
        C4WStateChange::Left(v) => child_moves(tr.lr_children(true, trimmed(s.left))[p]@, trimmed(v)),
        C4WStateChange::Right(v) => child_moves(tr.lr_children(false, trimmed(s.right))[p]@, trimmed(v)),
    };
    (if m.hold {
        seq![GameMove::Hold]
    } else {
        Seq::<GameMove>::empty()
    }) + body + seq![GameMove::HardDrop]
}

/// Move `m` of state `s` may be searched: it builds up, or clearing is
/// allowed.
pub open spec fn move_allowed(s: C4WState, m: C4WMoveOptions) -> bool {
    !(m.change is Center) || downstack_allowed(s)
}

/// State `s` has an allowed move that keeps building up (or clearing) as
/// `upstack` says.
pub open spec fn has_steady_move(tr: C4WTransitions, s: C4WState, upstack: bool) -> bool {
    exists|m: C4WMoveOptions|
        #[trigger] state_moves(tr, s).contains(m) && move_allowed(s, m) && !(m.change is Center) == upstack
}

fn find_center_child(children: &Vec<(u16, Vec<GameMove>)>, key: u16) -> (k: Option<usize>)
    ensures
        k matches Some(i) ==> i < children@.len() && children@[i as int].0 == key,
        k is None ==> forall|i: int| 0 <= i < children@.len() ==> children@[i].0 != key,
{
    let mut i: usize = 0;
    while i < children.len()
        invariant
            0 <= i <= children@.len(),
            forall|j: int| 0 <= j < i ==> children@[j].0 != key,
        decreases children@.len() - i,
    {
        if children[i].0 == key {
            return Some(i);
        }
        i += 1;
    }
    None
}

fn find_lr_child(children: &Vec<((i8, i8, i8), Vec<GameMove>)>, key: (i8, i8, i8)) -> (k: Option<usize>)
    ensures
        k matches Some(i) ==> i < children@.len() && children@[i as int].0 == key,
        k is None ==> forall|i: int| 0 <= i < children@.len() ==> children@[i].0 != key,
{
    let mut i: usize = 0;
    while i < children.len()
        invariant
            0 <= i <= children@.len(),
            forall|j: int| 0 <= j < i ==> children@[j].0 != key,
        decreases children@.len() - i,
    {
        let c = children[i].0;
        if c.0 == key.0 && c.1 == key.1 && c.2 == key.2 {
            return Some(i);
        }
        i += 1;
    }
    None
}

fn push_moves(out: &mut Vec<GameMove>, moves: &Vec<GameMove>)
    ensures
        final(out)@ == old(out)@ + moves@,
{
    let mut i: usize = 0;
    while i < moves.len()
        invariant
            0 <= i <= moves@.len(),
            out@ == old(out)@ + moves@.take(i as int),
        decreases moves@.len() - i,
    {
        out.push(moves[i]);
        assert(out@ =~= old(out)@ + moves@.take(i + 1));
        i += 1;
    }
    assert(moves@.take(i as int) =~= moves@);
}

/// `e` plays an allowed move of `s`, one that keeps building up (or
/// clearing) as `upstack` says whenever `s` has such a move, and
/// `upstack_after` is whether that move builds up.
pub open spec fn eval_plays(tr: C4WTransitions, s: C4WState, upstack: bool, e: AIGameEval, upstack_after: bool) -> bool {
    exists|m: C4WMoveOptions|
        {
            &&& #[trigger] state_moves(tr, s).contains(m)
            &&& move_allowed(s, m)
            &&& has_steady_move(tr, s, upstack) ==> !(m.change is Center) == upstack
            &&& e.moves@ == eval_moves(tr, s, m)
            &&& upstack_after == !(m.change is Center)
        }
}

proof fn lemma_index_injective(a: PieceType, b: PieceType)
    requires
        a.index() == b.index(),
    ensures
        a == b,
{
    match a {
        PieceType::O => {},
        PieceType::I => {},
        PieceType::T => {},
        PieceType::L => {},
        PieceType::J => {},
        PieceType::S => {},
        PieceType::Z => {},
    }
}

/// Two states of one game search alike.
proof fn lemma_game_state_unique(tr: C4WTransitions, g: Game, s0: C4WState, s: C4WState, u: bool)
    requires
        state_of_game(g, s0),
        state_of_game(g, s),
    ensures
        same_state(s0, s),
        search_view(s) == search_view(s0),
        state_moves(tr, s) == state_moves(tr, s0),
        has_steady_move(tr, s, u) == has_steady_move(tr, s0, u),
        forall|e: AIGameEval, ua: bool| #[trigger] eval_plays(tr, s, u, e, ua) == eval_plays(tr, s0, u, e, ua),
{
    let q0 = s0.queue_pieces@;
    let q = s.queue_pieces@;
    assert(q0.map_values(|t: PieceType| t.index()).len() == q.map_values(|t: PieceType| t.index()).len());
    assert forall|i: int| 0 <= i < q.len() implies q[i] == q0[i] by {
        assert(q.map_values(|t: PieceType| t.index())[i] == q0.map_values(|t: PieceType| t.index())[i]);
        lemma_index_injective(q[i], q0[i]);
    }
    assert(q =~= q0);
    lemma_index_injective(s.hold_piece, s0.hold_piece);
    assert forall|c: int| 0 <= c < 16 implies has_bit(s.center, c) == has_bit(s0.center, c) by {
        assert(has_bit(s.center, c) == cell(g.board.matrix@, 3 + c % 4, c / 4));
        assert(has_bit(s0.center, c) == cell(g.board.matrix@, 3 + c % 4, c / 4));
    }
    lemma_bits_equal(s.center, s0.center);
    assert(state_moves(tr, s) == state_moves(tr, s0));
    assert forall|m: C4WMoveOptions| move_allowed(s, m) == move_allowed(s0, m) && eval_moves(tr, s, m) == eval_moves(tr, s0, m) by {}
}

// The game moves that play move `m` of `state`.
fn play_moves(state: &C4WState, transitions: &C4WTransitions, m: &C4WMoveOptions) -> (moves: Vec<GameMove>)
    requires
        transitions.wf(),
        state_listed(*transitions, *state),
        move_has_child(*transitions, *state, *m),
        move_ok(*transitions, *m),
    ensures
        moves@ == eval_moves(*transitions, *state, *m),
{
    let piece = if m.hold {
        state.get_hold_piece()
    } else {
        state.get_current_piece()
    };
    let p = piece.to_i32() as usize;
    assert(p == move_piece(*state, *m));
    let mut moves: Vec<GameMove> = Vec::new();
    if m.hold {
        moves.push(GameMove::Hold);
    }
    let ghost prefix = moves@;
    let ghost body: Seq<GameMove>;
    match m.change {
        C4WStateChange::Center(new_state) => {
            let ci = transitions.find_center(state.center).unwrap();
            proof {
                assert(transitions.center@[ci as int].1@.len() == 7);
            }
            let children = &transitions.center[ci].1[p];
            let k = find_center_child(children, new_state).unwrap();
            proof {
                assert(children@[k as int].0 == new_state);
                body = children@[k as int].1@;
                assert(child_moves(children@, new_state) == body);
            }
            push_moves(&mut moves, &children[k].1);
        },
        C4WStateChange::Left(new_state) => {
            let (old_state, _) = trim_lr(state.left);
            let li = transitions.find_lr(true, old_state).unwrap();
            proof {
                assert(transitions.left@[li as int].1@.len() == 7);
            }
            let (new_key, _) = trim_lr(new_state);
            let children = &transitions.left[li].1[p];
            let k = find_lr_child(children, new_key).unwrap();
            proof {
                body = children@[k as int].1@;
                assert(child_moves(children@, new_key) == body);
            }
            push_moves(&mut moves, &children[k].1);
        },
        C4WStateChange::Right(new_state) => {
            let (old_state, _) = trim_lr(state.right);
            let ri = transitions.find_lr(false, old_state).unwrap();
            proof {
                assert(transitions.right@[ri as int].1@.len() == 7);
            }
            let (new_key, _) = trim_lr(new_state);
            let children = &transitions.right[ri].1[p];
            let k = find_lr_child(children, new_key).unwrap();
            proof {
                body = children@[k as int].1@;
                assert(child_moves(children@, new_key) == body);
            }
            push_moves(&mut moves, &children[k].1);
        },
    }
    moves.push(GameMove::HardDrop);
    assert(moves@ =~= eval_moves(*transitions, *state, *m));
    moves
}


/// The bot's state as its search sees it: the areas, the position in the
/// queue, the queue and the held piece.
pub struct SearchView {
    pub left: (i8, i8, i8),
    pub center: u16,
    pub right: (i8, i8, i8),
    pub ptr: usize,
    pub pieces: Seq<PieceType>,
    pub hold: PieceType,
}

/// The search's view of state `s`.
pub open spec fn search_view(s: C4WState) -> SearchView {
    SearchView {
        left: s.left,
        center: s.center,
        right: s.right,
        ptr: s.queue_ptr,
        pieces: s.queue_pieces@,
        hold: s.hold_piece,
    }
}

/// The view after move `m`: the area it names changed, the next piece
/// current, and the held piece swapped in when it plays it.
pub open spec fn view_after(a: SearchView, m: C4WMoveOptions) -> SearchView {
    SearchView {
        left: match m.change {
            C4WStateChange::Left(v) => v,
            _ => a.left,
        },
        center: match m.change {
            C4WStateChange::Center(v) => v,
            _ => a.center,
        },
        right: match m.change {
            C4WStateChange::Right(v) => v,
            _ => a.right,
        },
        ptr: (a.ptr + 1) as usize,
        pieces: if m.hold {
            a.pieces.update(a.ptr as int, a.hold)
        } else {
            a.pieces
        },
        hold: if m.hold {
            a.pieces[a.ptr as int]
        } else {
            a.hold
        },
    }
}

/// The moves of view `a`, as `state_moves` lists them for a state.
pub open spec fn view_moves(tr: C4WTransitions, a: SearchView) -> Seq<C4WMoveOptions> {
    let cur = a.pieces[a.ptr as int].index();
    let hold = a.hold.index();
    let ce = tr.center_children(a.center);
    let le = tr.lr_children(true, trimmed(a.left));
    let re = tr.lr_children(false, trimmed(a.right));
    center_options(ce[cur]@, false) + center_options(ce[hold]@, true) + lr_options(
        le[cur]@,
        min3(a.left),
        true,
        false,
    ) + lr_options(le[hold]@, min3(a.left), true, true) + lr_options(re[cur]@, min3(a.right), false, false)
        + lr_options(re[hold]@, min3(a.right), false, true)
}

/// The center area of view `a` may be cleared.
pub open spec fn view_downstack(a: SearchView) -> bool {
    a.left.0 > 3 && a.left.1 > 3 && a.left.2 > 3 && a.right.0 > 3 && a.right.1 > 3 && a.right.2 > 3
}

/// The search from view `a` with `depth` pieces to look at, building up
/// when `up` is set: the states counted, those counted without switching
/// between building up and clearing, and the best move.
pub open spec fn search(tr: C4WTransitions, a: SearchView, up: bool, depth: int) -> (int, int, Option<C4WMoveOptions>)
    decreases depth, 1int, 0int,
{
    if a.ptr == a.pieces.len() - 1 || depth <= 1 {
        (1, 1, None)
    } else {
        let r = search_fold(tr, a, up, depth, view_moves(tr, a).len());
        (r.0, r.1, r.4)
    }
}

/// The search over the first `n` moves of view `a`: the states counted,
/// those counted without switching, whether the best move so far switches
/// not, the score it was taken with, and that move.
pub open spec fn search_fold(tr: C4WTransitions, a: SearchView, up: bool, depth: int, n: nat) -> (
    int,
    int,
    bool,
    int,
    Option<C4WMoveOptions>,
)
    decreases depth, 0int, n,
{
    if n == 0 || depth <= 1 {
        (0, 0, false, 0, None)
    } else {
        let prev = search_fold(tr, a, up, depth, (n - 1) as nat);
        let m = view_moves(tr, a)[n - 1];
        let mup = !(m.change is Center);
        if !(mup || view_downstack(a)) {
            prev
        } else {
            let r = search(tr, view_after(a, m), mup, depth - 1);
            let steady = mup == up;
            let total = prev.0 + r.0;
            let similar = prev.1 + if steady {
                r.1
            } else {
                0
            };
            if steady && (!prev.2 || r.1 > prev.3) {
                (total, similar, true, r.0, Some(m))
            } else if !prev.2 && r.0 > prev.3 {
                (total, similar, prev.2, r.0, Some(m))
            } else {
                (total, similar, prev.2, prev.3, prev.4)
            }
        }
    }
}

/// The moves of a state are those of its view.
pub proof fn lemma_view_moves(tr: C4WTransitions, s: C4WState)
    ensures
        state_moves(tr, s) == view_moves(tr, search_view(s)),
{
}

/// Move `j` of view `a` is among the first `n` and may be played: it builds
/// up, or the center may be cleared.
pub open spec fn move_playable(tr: C4WTransitions, a: SearchView, n: int, j: int) -> bool {
    0 <= j < n && (!(view_moves(tr, a)[j].change is Center) || view_downstack(a))
}

/// Move `j` may be played and keeps building up (when `up` is set) or
/// keeps clearing (when it is not).
pub open spec fn move_steady(tr: C4WTransitions, a: SearchView, up: bool, n: int, j: int) -> bool {
    move_playable(tr, a, n, j) && (!(view_moves(tr, a)[j].change is Center)) == up
}

/// The states counted below move `j` within `depth - 1` pieces.
pub open spec fn move_total(tr: C4WTransitions, a: SearchView, depth: int, j: int) -> int {
    let m = view_moves(tr, a)[j];
    search(tr, view_after(a, m), !(m.change is Center), depth - 1).0
}

/// The states counted below move `j` without switching between building
/// up and clearing.
pub open spec fn move_similar(tr: C4WTransitions, a: SearchView, depth: int, j: int) -> int {
    let m = view_moves(tr, a)[j];
    search(tr, view_after(a, m), !(m.change is Center), depth - 1).1
}

/// What the choice among the first `n` moves satisfies: a steady move is
/// taken whenever there is one, and a later steady move replaces the move
/// taken only when it has more non-switching states than the move taken
/// has states; with no steady move, the move with the most states is taken,
/// the first of them.
pub open spec fn choice_ok(
    tr: C4WTransitions,
    a: SearchView,
    up: bool,
    depth: int,
    n: int,
    steady: bool,
    score: int,
    best: Option<C4WMoveOptions>,
) -> bool {
    &&& steady == exists|j: int| #[trigger] move_steady(tr, a, up, n, j)
    &&& steady ==> exists|k: int|
        #[trigger] move_steady(tr, a, up, n, k) && best == Some(view_moves(tr, a)[k]) && score == move_total(
            tr,
            a,
            depth,
            k,
        ) && (forall|j: int| #[trigger] move_steady(tr, a, up, n, j) && j > k ==> move_similar(tr, a, depth, j) <= move_total(tr, a, depth, k))
            && ((exists|j: int| #[trigger] move_steady(tr, a, up, n, j) && j < k) ==> exists|j: int|
            #[trigger] move_steady(tr, a, up, n, j) && j < k && move_total(tr, a, depth, j) < move_similar(tr, a, depth, k))
    &&& !steady ==> {
        &&& forall|j: int| #[trigger] move_playable(tr, a, n, j) ==> move_total(tr, a, depth, j) <= score
        &&& best is None ==> score == 0
        &&& best is Some ==> exists|k: int|
            #[trigger] move_playable(tr, a, n, k) && best == Some(view_moves(tr, a)[k]) && score == move_total(tr, a, depth, k)
                && forall|j: int| #[trigger] move_playable(tr, a, n, j) && j < k ==> move_total(tr, a, depth, j) < score
    }
}

proof fn lemma_fold_choice(tr: C4WTransitions, a: SearchView, up: bool, depth: int, n: nat)
    requires
        depth > 1,
        n <= view_moves(tr, a).len(),
    ensures
        ({
            let f = search_fold(tr, a, up, depth, n);
            choice_ok(tr, a, up, depth, n as int, f.2, f.3, f.4)
        }),
    decreases n,
{
    if n == 0 {
        let f = search_fold(tr, a, up, depth, 0);
        assert(f == (0int, 0int, false, 0int, None::<C4WMoveOptions>));
        assert forall|j: int| !#[trigger] move_steady(tr, a, up, 0, j) by {}
        assert forall|j: int| !#[trigger] move_playable(tr, a, 0, j) by {}
    } else {
        let p = (n - 1) as nat;
        lemma_fold_choice(tr, a, up, depth, p);
        let prev = search_fold(tr, a, up, depth, p);
        let f = search_fold(tr, a, up, depth, n);
        let i = p as int;
        let ni = n as int;
        assert forall|j: int| j != i implies #[trigger] move_playable(tr, a, ni, j) == move_playable(tr, a, i, j) by {}
        assert forall|j: int| j != i implies #[trigger] move_steady(tr, a, up, ni, j) == move_steady(tr, a, up, i, j) by {
            assert(move_playable(tr, a, ni, j) == move_playable(tr, a, i, j));
        }
        if !move_playable(tr, a, ni, i) {
            assert(f == prev);
            assert(!move_steady(tr, a, up, ni, i));
            if prev.2 {
                let k = choose|k: int| #[trigger] move_steady(tr, a, up, i, k) && prev.4 == Some(view_moves(tr, a)[k])
                    && prev.3 == move_total(tr, a, depth, k) && (forall|j: int| #[trigger] move_steady(tr, a, up, i, j) && j > k ==> move_similar(tr, a, depth, j) <= move_total(tr, a, depth, k))
                    && ((exists|j: int| #[trigger] move_steady(tr, a, up, i, j) && j < k) ==> exists|j: int|
                    #[trigger] move_steady(tr, a, up, i, j) && j < k && move_total(tr, a, depth, j) < move_similar(tr, a, depth, k));
                assert(move_steady(tr, a, up, ni, k));
                if exists|j: int| #[trigger] move_steady(tr, a, up, ni, j) && j < k {
                    let j0 = choose|j: int| #[trigger] move_steady(tr, a, up, ni, j) && j < k;
                    assert(move_steady(tr, a, up, i, j0));
                    let j1 = choose|j: int| #[trigger] move_steady(tr, a, up, i, j) && j < k && move_total(tr, a, depth, j) < move_similar(tr, a, depth, k);
                    assert(move_steady(tr, a, up, ni, j1));
                }
            } else {
                if prev.4 is Some {
                    let k = choose|k: int| #[trigger] move_playable(tr, a, i, k) && prev.4 == Some(view_moves(tr, a)[k]) && prev.3 == move_total(tr, a, depth, k)
                        && forall|j: int| #[trigger] move_playable(tr, a, i, j) && j < k ==> move_total(tr, a, depth, j) < prev.3;
                    assert(move_playable(tr, a, ni, k));
                }
                assert forall|j: int| !#[trigger] move_steady(tr, a, up, ni, j) by {
                    if j != i && move_steady(tr, a, up, ni, j) {
                        assert(move_steady(tr, a, up, i, j));
                    }
                }
            }
        } else {
            let m = view_moves(tr, a)[i];
            let mup = !(m.change is Center);
            let r = search(tr, view_after(a, m), mup, depth - 1);
            assert(r.0 == move_total(tr, a, depth, i));
            assert(r.1 == move_similar(tr, a, depth, i));
            let st = mup == up;
            assert(st == move_steady(tr, a, up, ni, i));
            if st && (!prev.2 || r.1 > prev.3) {
                assert(f.2 && f.3 == r.0 && f.4 == Some(m));
                assert(move_steady(tr, a, up, ni, i));
                if exists|j: int| #[trigger] move_steady(tr, a, up, ni, j) && j < i {
                    let j0 = choose|j: int| #[trigger] move_steady(tr, a, up, ni, j) && j < i;
                    assert(move_steady(tr, a, up, i, j0));
                    assert(prev.2);
                    let k = choose|k: int| #[trigger] move_steady(tr, a, up, i, k) && prev.4 == Some(view_moves(tr, a)[k])
                        && prev.3 == move_total(tr, a, depth, k) && (forall|j: int| #[trigger] move_steady(tr, a, up, i, j) && j > k ==> move_similar(tr, a, depth, j) <= move_total(tr, a, depth, k))
                        && ((exists|j: int| #[trigger] move_steady(tr, a, up, i, j) && j < k) ==> exists|j: int|
                        #[trigger] move_steady(tr, a, up, i, j) && j < k && move_total(tr, a, depth, j) < move_similar(tr, a, depth, k));
                    assert(move_steady(tr, a, up, ni, k));
                    assert(move_total(tr, a, depth, k) < move_similar(tr, a, depth, i));
                }
                assert forall|j: int| #[trigger] move_steady(tr, a, up, ni, j) && j > i implies move_similar(tr, a, depth, j) <= move_total(tr, a, depth, i) by {}
            } else if !prev.2 && r.0 > prev.3 {
                assert(!st);
                assert(!f.2 && f.3 == r.0 && f.4 == Some(m));
                assert forall|j: int| !#[trigger] move_steady(tr, a, up, ni, j) by {
                    if j != i && move_steady(tr, a, up, ni, j) {
                        assert(move_steady(tr, a, up, i, j));
                    }
                }
                assert forall|j: int| #[trigger] move_playable(tr, a, ni, j) implies move_total(tr, a, depth, j) <= f.3 by {
                    if j != i {
                        assert(move_playable(tr, a, i, j));
                    }
                }
                assert(move_playable(tr, a, ni, i));
                assert forall|j: int| #[trigger] move_playable(tr, a, ni, j) && j < i implies move_total(tr, a, depth, j) < f.3 by {
                    assert(move_playable(tr, a, i, j));
                }
            } else {
                assert(f.2 == prev.2 && f.3 == prev.3 && f.4 == prev.4);
                if prev.2 {
                    let k = choose|k: int| #[trigger] move_steady(tr, a, up, i, k) && prev.4 == Some(view_moves(tr, a)[k])
                        && prev.3 == move_total(tr, a, depth, k) && (forall|j: int| #[trigger] move_steady(tr, a, up, i, j) && j > k ==> move_similar(tr, a, depth, j) <= move_total(tr, a, depth, k))
                        && ((exists|j: int| #[trigger] move_steady(tr, a, up, i, j) && j < k) ==> exists|j: int|
                        #[trigger] move_steady(tr, a, up, i, j) && j < k && move_total(tr, a, depth, j) < move_similar(tr, a, depth, k));
                    assert(move_steady(tr, a, up, ni, k));
                    assert forall|j: int| #[trigger] move_steady(tr, a, up, ni, j) && j > k implies move_similar(tr, a, depth, j) <= move_total(tr, a, depth, k) by {
                        if j != i {
                            assert(move_steady(tr, a, up, i, j));
                        }
                    }
                    if exists|j: int| #[trigger] move_steady(tr, a, up, ni, j) && j < k {
                        let j0 = choose|j: int| #[trigger] move_steady(tr, a, up, ni, j) && j < k;
                        assert(move_steady(tr, a, up, i, j0));
                        let j1 = choose|j: int| #[trigger] move_steady(tr, a, up, i, j) && j < k && move_total(tr, a, depth, j) < move_similar(tr, a, depth, k);
                        assert(move_steady(tr, a, up, ni, j1));
                    }
                } else {
                    assert(!st);
                    assert forall|j: int| !#[trigger] move_steady(tr, a, up, ni, j) by {
                        if j != i && move_steady(tr, a, up, ni, j) {
                            assert(move_steady(tr, a, up, i, j));
                        }
                    }
                    assert forall|j: int| #[trigger] move_playable(tr, a, ni, j) implies move_total(tr, a, depth, j) <= f.3 by {
                        if j != i {
                            assert(move_playable(tr, a, i, j));
                        }
                    }
                    if prev.4 is Some {
                        let k = choose|k: int| #[trigger] move_playable(tr, a, i, k) && prev.4 == Some(view_moves(tr, a)[k]) && prev.3 == move_total(tr, a, depth, k)
                            && forall|j: int| #[trigger] move_playable(tr, a, i, j) && j < k ==> move_total(tr, a, depth, j) < prev.3;
                        assert(move_playable(tr, a, ni, k));
                        assert forall|j: int| #[trigger] move_playable(tr, a, ni, j) && j < k implies move_total(tr, a, depth, j) < f.3 by {
                            assert(move_playable(tr, a, i, j));
                        }
                    }
                }
            }
        }
    }
}

/// The bot's heuristic for the move it picks from view `a`, stated over
/// the counts below each move: when a move keeps building up (or keeps
/// clearing, as `up` says) the move picked is such a steady move; every
/// steady move listed after it has no more non-switching states than the
/// picked move has states; and unless it is the first steady move, some
/// steady move before it has fewer states than it has non-switching ones.
/// With no steady move, the first move with the most states is picked.
pub proof fn lemma_best_move(tr: C4WTransitions, a: SearchView, up: bool, depth: int)
    requires
        depth > 1,
        a.ptr != a.pieces.len() - 1,
    ensures
        ({
            let n = view_moves(tr, a).len() as int;
            let f = search_fold(tr, a, up, depth, n as nat);
            &&& search(tr, a, up, depth).2 == f.4
            &&& choice_ok(tr, a, up, depth, n, f.2, f.3, f.4)
        }),
{
    lemma_fold_choice(tr, a, up, depth, view_moves(tr, a).len());
}

struct AIEval {
    total: i64,
    similar: i64,
    best_child: Option<C4WMoveOptions>,
}

/// The bot: whether it is building up the side areas.
pub struct AI {
    pub debug: bool,
    pub upstack: bool,
}

/// The center area may be cleared only while every side column is higher
/// than 3.
pub open spec fn downstack_allowed(s: C4WState) -> bool {
    s.left.0 > 3 && s.left.1 > 3 && s.left.2 > 3 && s.right.0 > 3 && s.right.1 > 3 && s.right.2 > 3
}

/// The areas, pointer and pieces of `s1` are those of `s0`.
pub open spec fn same_state(s0: C4WState, s1: C4WState) -> bool {
    &&& s1.left == s0.left
    &&& s1.center == s0.center
    &&& s1.right == s0.right
    &&& s1.queue_ptr == s0.queue_ptr
    &&& s1.hold_piece == s0.hold_piece
    &&& s1.queue_pieces@ == s0.queue_pieces@
}

/// The bot can list the moves of state `s`.
pub open spec fn state_listed(tr: C4WTransitions, s: C4WState) -> bool {
    &&& s.wf()
    &&& small_lr(s.left)
    &&& small_lr(s.right)
    &&& tr.has_center(s.center)
    &&& tr.has_lr(true, trimmed(s.left))
    &&& tr.has_lr(false, trimmed(s.right))
}

impl AI {
    /// A bot that starts out clearing the center.
    pub fn new(debug: bool) -> (ai: Self)
        ensures
            ai.debug == debug,
            !ai.upstack,
    {
        AI { debug, upstack: false }
    }

    // For a state, counts the states reachable within `depth` pieces, and
    // those reachable without switching between building up and clearing;
    // the best move is the one with the most states of the second kind, or,
    // when every move switches, with the most states in all.
    fn evaluate_recursive(
        &self,
        state: &mut C4WState,
        transitions: &C4WTransitions,
        upstack: bool,
        depth: i32,
        Ghost(b): Ghost<nat>,
    ) -> (res: AIEval)
        requires
            transitions.wf(),
            transitions.closed(),
            transitions.children_at_most(b),
            b >= 1,
            state_listed(*transitions, *old(state)),
            power(6 * b as int, (if depth >= 1 {
                depth - 1
            } else {
                0
            }) as nat) <= i64::MAX,
        ensures
            same_state(*old(state), *final(state)),
            0 <= res.similar <= res.total <= power(6 * b as int, (if depth >= 1 {
                depth - 1
            } else {
                0
            }) as nat),
            res.best_child matches Some(m) ==> state_moves(*transitions, *old(state)).contains(m) && (
            m.change is Center ==> downstack_allowed(*old(state))),
            old(state).queue_ptr == old(state).queue_pieces@.len() - 1 || depth <= 1 ==> res.best_child is None,
            old(state).queue_ptr < old(state).queue_pieces@.len() - 1 && depth > 1 && has_steady_move(
                *transitions,
                *old(state),
                upstack,
            ) ==> (res.best_child matches Some(m) && !(m.change is Center) == upstack),
            (res.total as int, res.similar as int, res.best_child) == search(
                *transitions,
                search_view(*old(state)),
                upstack,
                depth as int,
            ),
        decreases depth,
    {
        let ghost s0 = *state;
        proof {
            lemma_power_grows(6 * b as int, (if depth >= 1 {
                depth - 1
            } else {
                0
            }) as nat);
        }
        let is_last = state.queue_ptr == state.queue_pieces.len() - 1;
        if is_last || depth <= 1 {
            return AIEval { total: 1, similar: 1, best_child: None };
        }
        let mut total: i64 = 0;
        let mut similar: i64 = 0;
        let mut best_no_transitions = false;
        let mut best_score: i64 = 0;
        let mut best_child: Option<C4WMoveOptions> = None;
        let may_downstack = state.left.0 > 3 && state.left.1 > 3 && state.left.2 > 3 && state.right.0 > 3
            && state.right.1 > 3 && state.right.2 > 3;
        let iter_moves = state.get_moves(transitions);
        let ghost m: int = 6 * b as int;
        let ghost p = power(m, (depth - 2) as nat);
        proof {
            lemma_state_moves_ok(*transitions, s0, b);
            lemma_view_moves(*transitions, s0);
            assert(power(m, (depth - 1) as nat) == m * p);
            lemma_power_grows(m, (depth - 2) as nat);
        }
        let mut idx: usize = 0;
        while idx < iter_moves.len()
            invariant
                0 <= idx <= iter_moves@.len(),
                iter_moves@ == state_moves(*transitions, s0),
                iter_moves@.len() <= m,
                transitions.wf(),
                transitions.closed(),
                transitions.children_at_most(b),
                state_listed(*transitions, s0),
                forall|i: int| 0 <= i < iter_moves@.len() ==> move_ok(*transitions, #[trigger] iter_moves@[i]),
                same_state(s0, *state),
                s0.queue_ptr < s0.queue_pieces@.len() - 1,
                depth >= 2,
                m == 6 * b,
                p == power(m, (depth - 2) as nat),
                m * p <= i64::MAX,
                p >= 1,
                b >= 1,
                may_downstack == downstack_allowed(s0),
                0 <= similar <= total,
                total <= idx * p,
                best_child matches Some(c) ==> iter_moves@.contains(c) && (c.change is Center ==> downstack_allowed(s0)),
                best_no_transitions ==> (best_child matches Some(c) && !(c.change is Center) == upstack),
                iter_moves@ == view_moves(*transitions, search_view(s0)),
                (total as int, similar as int, best_no_transitions, best_score as int, best_child) == search_fold(
                    *transitions,
                    search_view(s0),
                    upstack,
                    depth as int,
                    idx as nat,
                ),
                !best_no_transitions ==> forall|j: int|
                    0 <= j < idx ==> !(move_allowed(s0, #[trigger] iter_moves@[j]) && !(iter_moves@[j].change is Center)
                        == upstack),
            decreases iter_moves@.len() - idx,
        {
            let state_move = C4WMoveOptions { change: iter_moves[idx].change, hold: iter_moves[idx].hold };
            assert(state_move == iter_moves@[idx as int]);
            let ghost prev = search_fold(*transitions, search_view(s0), upstack, depth as int, idx as nat);
            let move_is_upstack = state_move.change.is_upstack();
            let is_transitional = move_is_upstack != upstack;
            if move_is_upstack || may_downstack {
                let ghost before = *state;
                let undo_info = match state.make_move(&state_move) {
                    Ok(u) => u,
                    Err(_) => {
                        assert(false);
                        return AIEval { total: 1, similar: 1, best_child: None };
                    },
                };
                let ghost after = *state;
                proof {
                    assert(move_ok(*transitions, state_move));
                    assert(m >= 1);
                    lemma_power_grows(m, (depth - 2) as nat);
                }
                proof {
                    assert(search_view(after) == view_after(search_view(s0), state_move));
                }
                let res = self.evaluate_recursive(state, transitions, move_is_upstack, depth - 1, Ghost(b));
                let ghost back = *state;
                state.undo_move(&undo_info);
                proof {
                    lemma_undo_move_restores(before, back, *state, state_move, undo_info);
                    assert(res.total <= p);
                    assert(total + res.total <= (idx + 1) * p) by (nonlinear_arith)
                        requires
                            total <= idx * p,
                            res.total <= p,
                    ;
                    assert((idx + 1) * p <= m * p) by (nonlinear_arith)
                        requires
                            idx + 1 <= m,
                            p >= 1,
                    ;
                }
                total += res.total;
                if !is_transitional {
                    similar += res.similar;
                }
                if !is_transitional && (!best_no_transitions || res.similar > best_score) {
                    best_no_transitions = true;
                    best_score = res.total;
                    best_child = Some(state_move);
                } else if !best_no_transitions && res.total > best_score {
                    best_score = res.total;
                    best_child = Some(state_move);
                }
                proof {
                    assert(view_moves(*transitions, search_view(s0))[idx as int] == state_move);
                    assert((total as int, similar as int, best_no_transitions, best_score as int, best_child) == search_fold(
                        *transitions,
                        search_view(s0),
                        upstack,
                        depth as int,
                        (idx + 1) as nat,
                    ));
                }
            } else {
                proof {
                    assert(view_moves(*transitions, search_view(s0))[idx as int] == state_move);
                    assert(search_fold(*transitions, search_view(s0), upstack, depth as int, (idx + 1) as nat) == prev);
                }
            }
            proof {
                assert((idx + 1) * p >= idx * p) by (nonlinear_arith)
                    requires
                        p >= 0,
                ;
            }
            idx += 1;
        }
        proof {
            assert(total <= m * p) by (nonlinear_arith)
                requires
                    total <= idx * p,
                    idx <= m,
                    p >= 0,
            ;
            if has_steady_move(*transitions, s0, upstack) {
                let w = choose|w: C4WMoveOptions|
                    #[trigger] state_moves(*transitions, s0).contains(w) && move_allowed(s0, w) && !(w.change is Center)
                        == upstack;
                let j = choose|j: int| 0 <= j < iter_moves@.len() && iter_moves@[j] == w;
                assert(move_allowed(s0, iter_moves@[j]));
            }
        }
        AIEval { total, similar, best_child }
    }

    /// The bot's answer for a game: a hold while nothing is held; else the
    /// moves that play the best move its search finds, with the number of
    /// states counted below it, and the bot keeps building up (or clearing)
    /// as that move does.
    pub fn evaluate_game(&mut self, game: &mut Game, transitions: &C4WTransitions) -> (res: Result<AIGameEval, AIGameEvalErr>)
        requires
            transitions.wf(),
            transitions.closed(),
            search_fits(*transitions),
            game_searchable(*transitions, *old(game)),
        ensures
            *final(game) == *old(game),
            final(self).debug == old(self).debug,
            old(game).hold_piece is None ==> (res matches Ok(e) && e.score is None && e.moves@ == seq![GameMove::Hold])
                && final(self).upstack == old(self).upstack,
            res matches Err(e) ==> old(game).hold_piece is Some && e.0@ == "Evaluation returned no child state"@
                && final(self).upstack == old(self).upstack,
            old(game).hold_piece is Some && old(game).queue_pieces@.len() == 0 ==> res is Err,
            forall|s: C4WState|
                #[trigger] state_of_game(*old(game), s) ==> {
                    let r = search(*transitions, search_view(s), old(self).upstack, AI_MAX_DEPTH as int);
                    &&& res is Ok <==> r.2 is Some
                    &&& res matches Ok(e) ==> r.2 matches Some(m) && e.score == Some(r.0 as i64) && e.moves@
                        == eval_moves(*transitions, s, m) && final(self).upstack == !(m.change is Center)
                    &&& old(game).queue_pieces@.len() > 0 && has_steady_move(*transitions, s, old(self).upstack)
                        ==> res is Ok
                    &&& res matches Ok(e) ==> e.score matches Some(t) && t >= 0 && eval_plays(
                        *transitions,
                        s,
                        old(self).upstack,
                        e,
                        final(self).upstack,
                    )
                },
    {
        let ghost g0 = *game;
        let mut state = match C4WState::from_game(game, transitions) {
            Ok(s) => s,
            Err(C4WConstructErr::HoldIsNone) => {
                let mut moves: Vec<GameMove> = Vec::new();
                moves.push(GameMove::Hold);
                proof {
                    assert forall|s: C4WState| #[trigger] state_of_game(g0, s) implies false by {}
                }
                return Ok(AIGameEval { score: None, moves });
            },
            Err(C4WConstructErr::InvalidBoard) => {
                proof {
                    assert(false);
                }
                return Err(AIGameEvalErr::from_str("Evaluation returned no child state"));
            },
        };
        let ghost s0 = state;
        let ghost b = choose|b: nat|
            b >= 1 && transitions.children_at_most(b) && power(6 * b as int, (AI_MAX_DEPTH - 1) as nat) <= i64::MAX;
        proof {
            assert(game.board.col_wf(0) && game.board.col_wf(1) && game.board.col_wf(2));
            assert(game.board.col_wf(7) && game.board.col_wf(8) && game.board.col_wf(9));
            lemma_height_props(game.board.matrix@, 0, 24);
            lemma_height_props(game.board.matrix@, 1, 24);
            lemma_height_props(game.board.matrix@, 2, 24);
            lemma_height_props(game.board.matrix@, 7, 24);
            lemma_height_props(game.board.matrix@, 8, 24);
            lemma_height_props(game.board.matrix@, 9, 24);
            assert(state.queue_pieces@.map_values(|t: PieceType| t.index()).len() == state.queue_pieces@.len());
        }
        let ghost up0 = self.upstack;
        let eval = self.evaluate_recursive(&mut state, transitions, self.upstack, AI_MAX_DEPTH, Ghost(b));
        let ghost r0 = search(*transitions, search_view(s0), up0, AI_MAX_DEPTH as int);
        assert(r0 == (eval.total as int, eval.similar as int, eval.best_child));
        let move_options = match eval.best_child {
            Some(m) => m,
            None => {
                proof {
                    assert forall|s: C4WState| #[trigger] state_of_game(g0, s) implies !(g0.queue_pieces@.len() > 0
                        && has_steady_move(*transitions, s, self.upstack)) && search(
                        *transitions,
                        search_view(s),
                        up0,
                        AI_MAX_DEPTH as int,
                    ).2 is None by {
                        lemma_game_state_unique(*transitions, g0, s0, s, self.upstack);
                    }
                }
                return Err(AIGameEvalErr::from_str("Evaluation returned no child state"));
            },
        };
        self.upstack = move_options.change.is_upstack();
        proof {
            assert(state_moves(*transitions, state) == state_moves(*transitions, s0));
            lemma_state_move_child(*transitions, state, move_options);
            lemma_state_moves_ok(*transitions, s0, b);
            let i = choose|i: int| 0 <= i < state_moves(*transitions, s0).len() && state_moves(*transitions, s0)[i] == move_options;
            assert(move_ok(*transitions, state_moves(*transitions, s0)[i]));
        }
        let moves = play_moves(&state, transitions, &move_options);
        let e = AIGameEval { score: Some(eval.total), moves };
        proof {
            assert(eval_plays(*transitions, s0, up0, e, self.upstack));
            assert forall|s: C4WState| #[trigger] state_of_game(g0, s) implies eval_plays(
                *transitions,
                s,
                up0,
                e,
                self.upstack,
            ) && search(*transitions, search_view(s), up0, AI_MAX_DEPTH as int) == r0 && eval_moves(*transitions, s, move_options)
                == eval_moves(*transitions, s0, move_options) by {
                lemma_game_state_unique(*transitions, g0, s0, s, up0);
            }
        }
        Ok(e)
    }
}

/// Every piece number of a request names a piece.
pub open spec fn request_pieces_ok(req: APIRequest) -> bool {
    &&& 0 <= req.current < 7
    &&& (req.hold matches Some(h) ==> 0 <= h < 7)
    &&& forall|i: int| 0 <= i < req.queue@.len() ==> 0 <= #[trigger] req.queue@[i] < 7
}

// The piece type of a piece number, or the error of a request.
fn request_piece(n: i32) -> (res: Result<crate::common::piece::PieceType, AIGameEvalErr>)
    ensures
        0 <= n < 7 ==> (res matches Ok(t) && t == piece_type_of(n as int)),
        !(0 <= n < 7) ==> (res matches Err(e) && e.0@ == "Invalid piece type"@),
{
    match crate::common::piece::PieceType::from_i32(n) {
        Ok(t) => {
            proof {
                crate::common::json::lemma_piece_type_of_index(t);
            }
            Ok(t)
        },
        Err(_) => {
            proof {
                reveal_strlit("Invalid piece type");
            }
            Err(AIGameEvalErr::from_str("Invalid piece type"))
        },
    }
}

/// The game a request describes: an empty board with the falling piece at
/// its spawn location, then the held piece, the queue and the twenty rows
/// of the request (the rows above empty).  A number that names no piece is
/// refused with "Invalid piece type".
pub fn game_from_request(req: &APIRequest) -> (res: Result<Game, AIGameEvalErr>)
    ensures
        !request_pieces_ok(*req) ==> (res matches Err(e) && e.0@ == "Invalid piece type"@),
        request_pieces_ok(*req) ==> (res matches Ok(g) && {
            &&& g.wf()
            &&& g.current_piece == step_down(Seq::new(24, |y: int| 0u16), spawn_piece(piece_type_of(req.current as int)))
            &&& g.hold_piece == match req.hold {
                Some(h) => Some(piece_type_of(h as int)),
                None => None,
            }
            &&& g.queue_pieces@ == req.queue@.map_values(|n: i32| piece_type_of(n as int))
            &&& forall|y: int| 0 <= y < 20 ==> g.board.matrix[y] == req.matrix[y]
            &&& forall|y: int| 20 <= y < 24 ==> g.board.matrix[y] == 0
            &&& g.can_hold
        }),
{
    let current = match request_piece(req.current) {
        Ok(t) => t,
        Err(e) => return Err(e),
    };
    let hold = match req.hold {
        Some(h) => match request_piece(h) {
            Ok(t) => Some(t),
            Err(e) => return Err(e),
        },
        None => None,
    };
    let mut queue: Vec<crate::common::piece::PieceType> = Vec::new();
    let mut i: usize = 0;
    while i < req.queue.len()
        invariant
            0 <= i <= req.queue@.len(),
            0 <= req.current < 7,
            req.hold matches Some(h) ==> 0 <= h < 7,
            forall|k: int| 0 <= k < i ==> 0 <= #[trigger] req.queue@[k] < 7,
            queue@ == req.queue@.take(i as int).map_values(|n: i32| piece_type_of(n as int)),
        decreases req.queue@.len() - i,
    {
        let t = match request_piece(req.queue[i]) {
            Ok(t) => t,
            Err(e) => {
                assert(!request_pieces_ok(*req));
                return Err(e);
            },
        };
        queue.push(t);
        assert(queue@ =~= req.queue@.take(i + 1).map_values(|n: i32| piece_type_of(n as int)));
        i += 1;
    }
    assert(req.queue@.take(i as int) =~= req.queue@);
    let mut matrix: [u16; 24] = [0; 24];
    let mut y: usize = 0;
    while y < 20
        invariant
            0 <= y <= 20,
            forall|k: int| 0 <= k < y ==> matrix[k] == req.matrix[k],
            forall|k: int| y <= k < 24 ==> matrix[k] == 0,
        decreases 20 - y,
    {
        matrix[y] = req.matrix[y];
        y += 1;
    }
    let mut game = Game::new();
    proof {
        assert(game.board.matrix@ =~= Seq::new(24, |y: int| 0u16));
    }
    game.set_current(current);
    game.set_hold(hold);
    game.set_queue(queue.as_slice());
    game.board.set_matrix(matrix);
    Ok(game)
}

} // verus!

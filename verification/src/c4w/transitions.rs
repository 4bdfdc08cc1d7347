//! The transitions of the bot's areas: for a state and a piece, every state
//! that one drop of the piece leads to, with the moves that make the drop.
use vstd::prelude::*;
use crate::bits::{has_bit, lemma_bits_equal, lemma_zero_has_no_bit};
use crate::c4w::computed::{C4WTransitions, center_bits_match, gen_piece_moves, lr_col, piece_moves_upto, small_lr};
use crate::c4w::piece::{
    c4w_run,
    c4w_spawn,
    c4w_step,
    c4w_type_of,
    common_of,
    lemma_move_post_step,
    lemma_run_push,
    sunk,
    Piece,
    PieceMove,
    PieceType,
};
use crate::common::board::{Board, BoardLockResult, cell, cleared, col_height, col_holes, full_rows, placed};
use crate::common::computed::lemma_location_bounds_range;
use crate::common::game::GameMove;
use crate::c4w::consts::{LEFT_COL, LR_MAX_DIFF, LR_WIDTH, RIGHT_COL};
use crate::c4w::state::{min3, trimmed};

verus! {

/// The board that sets center state `state` up: the side areas filled to
/// row 20, the center area holding the state's cells, nothing else.
pub open spec fn center_layout(m: Seq<u16>, state: u16) -> bool {
    &&& m.len() == 24
    &&& forall|c: int, y: int|
        0 <= c < 16 && 0 <= y < 24 ==> #[trigger] cell(m, c, y) == if c < 3 || (7 <= c < 10) {
            y < 20
        } else if c < 7 {
            y < 4 && has_bit(state, 4 * y + c - 3)
        } else {
            false
        }
}

/// The board that sets side state `state` up: the three columns of the
/// area filled to its heights, nothing else.
pub open spec fn lr_layout(m: Seq<u16>, state: (i8, i8, i8), left: bool) -> bool {
    &&& m.len() == 24
    &&& forall|c: int, y: int|
        0 <= c < 16 && 0 <= y < 24 ==> #[trigger] cell(m, c, y) == if c == lr_col(left) {
            y < state.0
        } else if c == lr_col(left) + 1 {
            y < state.1
        } else if c == lr_col(left) + 2 {
            y < state.2
        } else {
            false
        }
}

/// The matrix of the board that sets center state `state` up.
pub open spec fn center_matrix(state: u16) -> Seq<u16> {
    choose|m: Seq<u16>| center_layout(m, state)
}

/// The matrix of the board that sets side state `state` up.
pub open spec fn lr_matrix(state: (i8, i8, i8), left: bool) -> Seq<u16> {
    choose|m: Seq<u16>| lr_layout(m, state, left)
}

/// The center state of a matrix.
pub open spec fn center_state_of(m: Seq<u16>) -> u16 {
    choose|s: u16| center_bits_match(s, m)
}

/// Two matrices of 24 rows with the same cells are equal.
pub proof fn lemma_same_cells(m1: Seq<u16>, m2: Seq<u16>)
    requires
        m1.len() == 24,
        m2.len() == 24,
        forall|c: int, y: int| 0 <= c < 16 && 0 <= y < 24 ==> #[trigger] cell(m1, c, y) == cell(m2, c, y),
    ensures
        m1 == m2,
{
    assert forall|y: int| 0 <= y < 24 implies m1[y] == m2[y] by {
        assert forall|c: int| 0 <= c < 16 implies has_bit(m1[y], c) == has_bit(m2[y], c) by {
            assert(cell(m1, c, y) == cell(m2, c, y));
        }
        lemma_bits_equal(m1[y], m2[y]);
    }
    assert(m1 =~= m2);
}

/// A matrix that sets center state `state` up is its matrix.
pub proof fn lemma_center_matrix(m: Seq<u16>, state: u16)
    requires
        center_layout(m, state),
    ensures
        center_matrix(state) == m,
{
    let c = center_matrix(state);
    assert(center_layout(c, state));
    lemma_same_cells(m, c);
}

/// A matrix that sets side state `state` up is its matrix.
pub proof fn lemma_lr_matrix(m: Seq<u16>, state: (i8, i8, i8), left: bool)
    requires
        lr_layout(m, state, left),
    ensures
        lr_matrix(state, left) == m,
{
    let c = lr_matrix(state, left);
    assert(lr_layout(c, state, left));
    lemma_same_cells(m, c);
}

/// The center state whose cells match a matrix is its center state.
pub proof fn lemma_center_state_of(m: Seq<u16>, s: u16)
    requires
        center_bits_match(s, m),
    ensures
        center_state_of(m) == s,
{
    let c = center_state_of(m);
    assert(center_bits_match(c, m));
    assert forall|k: int| 0 <= k < 16 implies has_bit(c, k) == has_bit(s, k) by {}
    lemma_bits_equal(c, s);
}

/// The matrix `m` with a piece of type `t` locked in where the moves
/// `moves` and a drop bring it.
pub open spec fn dropped_matrix(m: Seq<u16>, t: PieceType, moves: Seq<PieceMove>) -> Seq<u16> {
    let p = common_of(sunk(m, c4w_run(m, c4w_spawn(t), moves)));
    placed(m, p.piece_type.index(), p.rotation as nat, p.location.0 as int, p.location.1 as int)
}

/// The game move that a piece move makes.
pub open spec fn game_move_of_piece(x: PieceMove) -> GameMove {
    match x {
        PieceMove::ShiftLeft => GameMove::ShiftLeft,
        PieceMove::ShiftRight => GameMove::ShiftRight,
        PieceMove::RotateLeft => GameMove::RotateLeft,
        PieceMove::RotateRight => GameMove::RotateRight,
        PieceMove::Rotate180 => GameMove::Rotate180,
        PieceMove::SoftDrop => GameMove::SoftDrop,
    }
}

/// The game moves of a list of piece moves.
pub open spec fn game_moves_of(moves: Seq<PieceMove>) -> Seq<GameMove> {
    moves.map_values(|x: PieceMove| game_move_of_piece(x))
}

// Plays a piece of type `t` on the board with the moves `moves`, drops it
// and locks it in.
fn play_piece(board: &mut Board, t: PieceType, moves: &Vec<PieceMove>) -> (res: BoardLockResult)
    requires
        old(board).wf(),
    ensures
        final(board).wf(),
        final(board).matrix@ == cleared(dropped_matrix(old(board).matrix@, t, moves@)),
        res.lines_cleared == full_rows(dropped_matrix(old(board).matrix@, t, moves@)),
{
    let ghost m = board.matrix@;
    let mut piece = Piece::new(t);
    proof {
        assert(piece == c4w_spawn(t));
        assert(moves@.take(0) =~= Seq::<PieceMove>::empty());
    }
    let mut j: usize = 0;
    while j < moves.len()
        invariant
            0 <= j <= moves@.len(),
            board.wf(),
            board.matrix@ == m,
            piece.wf(),
            piece == c4w_run(m, c4w_spawn(t), moves@.take(j as int)),
        decreases moves@.len() - j,
    {
        let ghost before = piece;
        let moved = piece.make_move(board, &moves[j]);
        proof {
            lemma_move_post_step(m, before, piece, moved, moves@[j as int]);
            lemma_run_push(m, c4w_spawn(t), moves@.take(j as int), moves@[j as int]);
            assert(moves@.take(j as int).push(moves@[j as int]) =~= moves@.take(j + 1));
        }
        j += 1;
    }
    proof {
        assert(moves@.take(j as int) =~= moves@);
    }
    let ghost before = piece;
    piece.soft_drop(board);
    assert(piece == sunk(m, before));
    let cp = piece.to_common();
    board.lock(&cp)
}

// The game moves of a list of piece moves.
fn to_game_moves(moves: &Vec<PieceMove>) -> (out: Vec<GameMove>)
    ensures
        out@ == game_moves_of(moves@),
{
    let mut out: Vec<GameMove> = Vec::new();
    let mut j: usize = 0;
    while j < moves.len()
        invariant
            0 <= j <= moves@.len(),
            out@ == game_moves_of(moves@.take(j as int)),
        decreases moves@.len() - j,
    {
        out.push(moves[j].to_game_move());
        assert(game_moves_of(moves@.take(j + 1)) =~= game_moves_of(moves@.take(j as int)).push(
            game_move_of_piece(moves@[j as int]),
        ));
        j += 1;
    }
    assert(moves@.take(j as int) =~= moves@);
    out
}

/// A key of the bot's area states that can be compared and copied, and
/// that a number below a bound tells apart.
pub trait ChildKey: Sized {
    /// Whether the two keys are equal.
    fn same(&self, other: &Self) -> (b: bool)
        ensures
            b == (*self == *other),
    ;

    /// The same key.
    fn copy(&self) -> (c: Self)
        ensures
            c == *self,
    ;

    /// The number of the key.
    spec fn code(self) -> int;

    /// Every key's number lies below this.
    spec fn code_bound() -> int;

    /// Numbers lie in `0..code_bound()` and tell keys apart.
    proof fn lemma_code(a: Self, b: Self)
        ensures
            0 <= a.code() < Self::code_bound(),
            a.code() == b.code() ==> a == b,
    ;
}

impl ChildKey for u16 {
    fn same(&self, other: &u16) -> (b: bool) {
        *self == *other
    }

    fn copy(&self) -> (c: u16) {
        *self
    }

    open spec fn code(self) -> int {
        self as int
    }

    open spec fn code_bound() -> int {
        0x10000
    }

    proof fn lemma_code(a: u16, b: u16) {
    }
}

impl ChildKey for (i8, i8, i8) {
    fn same(&self, other: &(i8, i8, i8)) -> (b: bool) {
        self.0 == other.0 && self.1 == other.1 && self.2 == other.2
    }

    fn copy(&self) -> (c: (i8, i8, i8)) {
        (self.0, self.1, self.2)
    }

    open spec fn code(self) -> int {
        (self.0 + 128) * 0x10000 + (self.1 + 128) * 0x100 + (self.2 + 128)
    }

    open spec fn code_bound() -> int {
        0x1000000
    }

    proof fn lemma_code(a: (i8, i8, i8), b: (i8, i8, i8)) {
        let (a0, a1, a2) = ((a.0 + 128) as int, (a.1 + 128) as int, (a.2 + 128) as int);
        let (b0, b1, b2) = ((b.0 + 128) as int, (b.1 + 128) as int, (b.2 + 128) as int);
        assert(0 <= a0 * 0x10000 + a1 * 0x100 + a2 < 0x1000000) by (nonlinear_arith)
            requires
                0 <= a0 < 256,
                0 <= a1 < 256,
                0 <= a2 < 256,
        ;
        assert(a0 * 0x10000 + a1 * 0x100 + a2 == b0 * 0x10000 + b1 * 0x100 + b2 ==> a0 == b0 && a1 == b1 && a2
            == b2) by (nonlinear_arith)
            requires
                0 <= a0 < 256,
                0 <= a1 < 256,
                0 <= a2 < 256,
                0 <= b0 < 256,
                0 <= b1 < 256,
                0 <= b2 < 256,
        ;
    }
}

/// Keys listed once each are no more than the bound of their numbers.
proof fn lemma_distinct_keys_bounded<K: ChildKey>(s: Seq<K>)
    requires
        s.no_duplicates(),
    ensures
        s.len() <= K::code_bound(),
{
    broadcast use vstd::seq_lib::seq_to_set_is_finite;

    s.unique_seq_to_set();
    let set = s.to_set();
    let f = |k: K| k.code();
    assert forall|a: K, b: K| set.contains(a) && set.contains(b) && #[trigger] f(a) == #[trigger] f(b) implies a == b by {
        K::lemma_code(a, b);
    }
    assert(vstd::relations::injective_on(f, set));
    vstd::set_lib::lemma_map_size(set, set.map(f), f);
    assert forall|i: int| #[trigger] set.map(f).contains(i) implies vstd::set_lib::set_int_range(0, K::code_bound()).contains(i) by {
        let k = choose|k: K| set.contains(k) && f(k) == i;
        K::lemma_code(k, k);
    }
    K::lemma_code(s[0], s[0]);
    vstd::set_lib::lemma_int_range(0, K::code_bound());
    vstd::set_lib::lemma_len_subset(set.map(f), vstd::set_lib::set_int_range(0, K::code_bound()));
}

/// Whether the moves `new` replace the moves `old` kept for a child:
/// shorter ones always do; with `prefer`, so do ones without a soft drop in
/// place of ones with one.
pub open spec fn replaces(old: Seq<GameMove>, new: Seq<GameMove>, prefer: bool) -> bool {
    old.len() > new.len() || (prefer && old.contains(GameMove::SoftDrop) && !new.contains(GameMove::SoftDrop))
}

/// The moves kept for each child after the first `n` move lists, the child
/// of list `i` being `outcomes[i]` (none when the list is refused) and its
/// game moves `moves[i]`.
pub open spec fn picks<K>(outcomes: Seq<Option<K>>, moves: Seq<Seq<GameMove>>, prefer: bool, n: nat) -> Map<
    K,
    Seq<GameMove>,
>
    decreases n,
{
    if n == 0 {
        Map::empty()
    } else {
        let prev = picks(outcomes, moves, prefer, (n - 1) as nat);
        match outcomes[n - 1] {
            Some(k) => if prev.contains_key(k) && !replaces(prev[k], moves[n - 1], prefer) {
                prev
            } else {
                prev.insert(k, moves[n - 1])
            },
            None => prev,
        }
    }
}

/// The list `l` holds each key once, with exactly the keys and moves of
/// `map`.
pub open spec fn lists_map<K>(l: Seq<(K, Vec<GameMove>)>, map: Map<K, Seq<GameMove>>) -> bool {
    &&& forall|a: int, b: int| 0 <= a < b < l.len() ==> #[trigger] l[a].0 != #[trigger] l[b].0
    &&& forall|c: int| 0 <= c < l.len() ==> map.contains_key(#[trigger] l[c].0) && l[c].1@ == map[l[c].0]
    &&& forall|k: K| map.contains_key(k) ==> exists|c: int| 0 <= c < l.len() && #[trigger] l[c].0 == k
}

fn has_soft_drop(moves: &Vec<GameMove>) -> (b: bool)
    ensures
        b == moves@.contains(GameMove::SoftDrop),
{
    let mut j: usize = 0;
    while j < moves.len()
        invariant
            0 <= j <= moves@.len(),
            forall|k: int| 0 <= k < j ==> moves@[k] != GameMove::SoftDrop,
        decreases moves@.len() - j,
    {
        if moves[j] == GameMove::SoftDrop {
            assert(moves@[j as int] == GameMove::SoftDrop);
            return true;
        }
        j += 1;
    }
    false
}

// Records `moves` for child `key`, unless the moves kept for it already
// are not replaced by them.
fn upsert<K: ChildKey>(
    children: &mut Vec<(K, Vec<GameMove>)>,
    key: K,
    moves: Vec<GameMove>,
    prefer: bool,
    Ghost(map): Ghost<Map<K, Seq<GameMove>>>,
)
    requires
        lists_map(old(children)@, map),
    ensures
        final(children)@.len() <= old(children)@.len() + 1,
        lists_map(
            final(children)@,
            if map.contains_key(key) && !replaces(map[key], moves@, prefer) {
                map
            } else {
                map.insert(key, moves@)
            },
        ),
{
    let mut i: usize = 0;
    while i < children.len()
        invariant
            0 <= i <= children@.len(),
            children@ == old(children)@,
            lists_map(children@, map),
            forall|c: int| 0 <= c < i ==> children@[c].0 != key,
        decreases children@.len() - i,
    {
        if children[i].0.same(&key) {
            let old_long = children[i].1.len() > moves.len();
            let replace = old_long || (prefer && has_soft_drop(&children[i].1) && !has_soft_drop(&moves));
            assert(map[key] == children@[i as int].1@);
            assert(map.contains_key(key));
            assert(replace == replaces(map[key], moves@, prefer));
            if replace {
                let ghost before = children@;
                children.set(i, (key, moves));
                proof {
                    let nm = map.insert(key, before[i as int].1@);
                    assert forall|k: K| #[trigger] map.insert(key, children@[i as int].1@).contains_key(k) implies exists|c: int|
                        0 <= c < children@.len() && #[trigger] children@[c].0 == k by {
                        if k != key {
                            let c = choose|c: int| 0 <= c < before.len() && #[trigger] before[c].0 == k;
                            assert(children@[c].0 == k);
                        } else {
                            assert(children@[i as int].0 == k);
                        }
                    }
                    assert forall|c: int| 0 <= c < children@.len() implies map.insert(key, moves@).contains_key(
                        #[trigger] children@[c].0,
                    ) && children@[c].1@ == map.insert(key, moves@)[children@[c].0] by {
                        if c != i {
                            assert(children@[c] == before[c]);
                            assert(before[c].0 != before[i as int].0);
                        }
                    }
                    assert forall|c: int| 0 <= c < children@.len() implies #[trigger] children@[c].0 == before[c].0 by {}
                    assert forall|a: int, b: int| 0 <= a < b < children@.len() implies #[trigger] children@[a].0
                        != #[trigger] children@[b].0 by {
                        assert(children@[a].0 == before[a].0 && children@[b].0 == before[b].0);
                    }
                    assert(children@[i as int].1@ == moves@);
                }
            }
            return;
        }
        i += 1;
    }
    proof {
        assert(!map.contains_key(key));
    }
    let ghost before = children@;
    children.push((key, moves));
    proof {
        assert forall|k: K| #[trigger] map.insert(key, moves@).contains_key(k) implies exists|c: int|
            0 <= c < children@.len() && #[trigger] children@[c].0 == k by {
            if k != key {
                let c = choose|c: int| 0 <= c < before.len() && #[trigger] before[c].0 == k;
                assert(children@[c].0 == k);
            } else {
                assert(children@[before.len() as int].0 == k);
            }
        }
    }
}

/// The game moves of every move list tried for piece number `t`.
pub open spec fn piece_game_moves(t: int) -> Seq<Seq<GameMove>> {
    piece_moves_upto(t, 4).map_values(|l: Seq<PieceMove>| game_moves_of(l))
}

/// The center state that the moves `moves` of piece number `t` lead to
/// from center state `state`: the one left once the dropped piece clears
/// exactly one line, none otherwise.
pub open spec fn center_child(state: u16, t: int, moves: Seq<PieceMove>) -> Option<u16> {
    let m1 = dropped_matrix(center_matrix(state), c4w_type_of(t), moves);
    if full_rows(m1) == 1 {
        Some(center_state_of(cleared(m1)))
    } else {
        None
    }
}

/// The center children of every move list tried for piece number `t`.
pub open spec fn center_outcomes(state: u16, t: int) -> Seq<Option<u16>> {
    let lists = piece_moves_upto(t, 4);
    Seq::new(lists.len(), |i: int| center_child(state, t, lists[i]))
}

/// The children of center state `state` for piece number `t`, each with
/// the moves kept for it.
pub open spec fn center_picks(state: u16, t: int) -> Map<u16, Seq<GameMove>> {
    picks(center_outcomes(state, t), piece_game_moves(t), true, piece_moves_upto(t, 4).len())
}

/// At most 240 move lists are tried for a piece.
pub proof fn lemma_piece_moves_len(t: int, n: nat)
    requires
        n <= 4,
    ensures
        piece_moves_upto(t, n).len() <= 60 * n,
    decreases n,
{
    if n > 0 {
        lemma_piece_moves_len(t, (n - 1) as nat);
        lemma_location_bounds_range(t, (n - 1) as nat);
    }
}

proof fn lemma_picks_step<K>(outcomes: Seq<Option<K>>, moves: Seq<Seq<GameMove>>, prefer: bool, n: nat)
    requires
        n < outcomes.len(),
    ensures
        picks(outcomes, moves, prefer, n + 1) == match outcomes[n as int] {
            Some(k) => if picks(outcomes, moves, prefer, n).contains_key(k) && !replaces(
                picks(outcomes, moves, prefer, n)[k],
                moves[n as int],
                prefer,
            ) {
                picks(outcomes, moves, prefer, n)
            } else {
                picks(outcomes, moves, prefer, n).insert(k, moves[n as int])
            },
            None => picks(outcomes, moves, prefer, n),
        },
{
}

impl C4WTransitions {
    /// The children of center state `state`, for each piece number: every
    /// center state that a drop of the piece clearing exactly one line leads
    /// to, with the moves of the drop; of several drops to one state, the
    /// shortest is kept, or one without a soft drop in place of one with.
    pub fn center_gen_transitions(state: u16) -> (ret: Vec<Vec<(u16, Vec<GameMove>)>>)
        ensures
            ret@.len() == 7,
            forall|t: int| 0 <= t < 7 ==> lists_map(#[trigger] ret@[t]@, center_picks(state, t)),
            forall|t: int| 0 <= t < 7 ==> (#[trigger] ret@[t])@.len() <= 240,
    {
        let types = PieceType::iter_types();
        let mut ret: Vec<Vec<(u16, Vec<GameMove>)>> = Vec::new();
        let mut ti: usize = 0;
        while ti < 7
            invariant
                0 <= ti <= 7,
                types@.len() == 7,
                forall|i: int| 0 <= i < 7 ==> (#[trigger] types@[i]).index() == i,
                ret@.len() == ti,
                forall|t: int| 0 <= t < ti ==> lists_map(#[trigger] ret@[t]@, center_picks(state, t)),
                forall|t: int| 0 <= t < ti ==> (#[trigger] ret@[t])@.len() <= 240,
            decreases 7 - ti,
        {
            let t = types[ti];
            let piece = Piece::new(t);
            let lists = gen_piece_moves(&piece);
            let ghost ts = ti as int;
            let ghost outcomes = center_outcomes(state, ts);
            let ghost gms = piece_game_moves(ts);
            proof {
                assert(lists@.map_values(|v: Vec<PieceMove>| v@).len() == lists@.len());
                lemma_piece_moves_len(ts, 4);
                assert(c4w_type_of(ts) == t) by {
                    crate::c4w::piece::lemma_c4w_type_of_index(t);
                }
            }
            let mut children: Vec<(u16, Vec<GameMove>)> = Vec::new();
            let mut i: usize = 0;
            while i < lists.len()
                invariant
                    0 <= i <= lists@.len(),
                    t.index() == ts,
                    0 <= ts < 7,
                    c4w_type_of(ts) == t,
                    lists@.map_values(|v: Vec<PieceMove>| v@) == piece_moves_upto(ts, 4),
                    outcomes == center_outcomes(state, ts),
                    gms == piece_game_moves(ts),
                    lists_map(children@, picks(outcomes, gms, true, i as nat)),
                    children@.len() <= i,
                    lists@.len() <= 240,
                decreases lists@.len() - i,
            {
                let ghost lst = lists@[i as int]@;
                proof {
                    assert(lists@.map_values(|v: Vec<PieceMove>| v@)[i as int] == lst);
                    lemma_picks_step(outcomes, gms, true, i as nat);
                }
                let mut board = Board::new();
                C4WTransitions::center_set_state(&mut board, state);
                proof {
                    assert forall|c: int, y: int| 0 <= c < 16 && 0 <= y < 24 implies #[trigger] cell(
                        board.matrix@,
                        c,
                        y,
                    ) == if c < 3 || (7 <= c < 10) {
                        y < 20
                    } else if c < 7 {
                        y < 4 && has_bit(state, 4 * y + c - 3)
                    } else {
                        false
                    } by {
                        if c >= 10 {
                            lemma_zero_has_no_bit(c as u16);
                        }
                    }
                    lemma_center_matrix(board.matrix@, state);
                }
                let res = play_piece(&mut board, t, &lists[i]);
                if res.lines_cleared == 1 {
                    let new_state = C4WTransitions::center_get_state(&board);
                    proof {
                        lemma_center_state_of(board.matrix@, new_state);
                        assert(outcomes[i as int] == Some(new_state));
                    }
                    let gm = to_game_moves(&lists[i]);
                    proof {
                        assert(gms[i as int] == gm@);
                    }
                    upsert(&mut children, new_state, gm, true, Ghost(picks(outcomes, gms, true, i as nat)));
                } else {
                    proof {
                        assert(outcomes[i as int] is None);
                    }
                }
                i += 1;
            }
            proof {
                assert(piece_moves_upto(ts, 4).len() == lists@.len());
            }
            ret.push(children);
            proof {
                assert forall|t2: int| 0 <= t2 <= ti implies lists_map(#[trigger] ret@[t2]@, center_picks(state, t2)) by {
                    if t2 < ti {
                    }
                }
                assert forall|t2: int| 0 <= t2 <= ti implies (#[trigger] ret@[t2])@.len() <= 240 by {
                    if t2 < ti {
                    }
                }
            }
            ti += 1;
        }
        ret
    }
}

/// The columns that a drop into the left area, or the right one, must leave
/// empty: all but those of the area.
pub open spec fn outside_col(left: bool, c: int) -> bool {
    if left {
        3 <= c < 10
    } else {
        0 <= c < 7
    }
}

/// The `j`-th column outside the left area, or the right one.
pub open spec fn outside_nth(left: bool, j: int) -> int {
    if left {
        3 + j
    } else {
        j
    }
}

/// The highest of three heights.
pub open spec fn max3(s: (i8, i8, i8)) -> int {
    if s.0 >= s.1 && s.0 >= s.2 {
        s.0 as int
    } else if s.1 >= s.2 {
        s.1 as int
    } else {
        s.2 as int
    }
}

/// The heights of the three columns of a side area of a matrix.
pub open spec fn area_heights(m: Seq<u16>, left: bool) -> (i8, i8, i8) {
    (
        col_height(m, lr_col(left)) as i8,
        col_height(m, lr_col(left) + 1) as i8,
        col_height(m, lr_col(left) + 2) as i8,
    )
}

/// A drop left `m` with nothing outside the side area and no hole in it.
pub open spec fn lr_drop_clean(m: Seq<u16>, left: bool) -> bool {
    &&& forall|c: int| #[trigger] outside_col(left, c) ==> col_height(m, c) == 0
    &&& forall|i: int| 0 <= i < 3 ==> #[trigger] col_holes(m, lr_col(left) + i) == 0
}

/// The side state that the moves `moves` of piece number `t` lead to from
/// side state `state`: the heights of the area, less their lowest, when the
/// drop stays in the area, leaves no hole and the heights differ by at most
/// `LR_MAX_DIFF`; none otherwise.
pub open spec fn lr_child(state: (i8, i8, i8), left: bool, t: int, moves: Seq<PieceMove>) -> Option<(i8, i8, i8)> {
    let m2 = cleared(dropped_matrix(lr_matrix(state, left), c4w_type_of(t), moves));
    let h = area_heights(m2, left);
    if lr_drop_clean(m2, left) && max3(h) - min3(h) <= LR_MAX_DIFF {
        Some(trimmed(h))
    } else {
        None
    }
}

/// The side children of every move list tried for piece number `t`.
pub open spec fn lr_outcomes(state: (i8, i8, i8), left: bool, t: int) -> Seq<Option<(i8, i8, i8)>> {
    let lists = piece_moves_upto(t, 4);
    Seq::new(lists.len(), |i: int| lr_child(state, left, t, lists[i]))
}

/// The children of side state `state` for piece number `t`, each with the
/// moves kept for it.
pub open spec fn lr_picks(state: (i8, i8, i8), left: bool, t: int) -> Map<(i8, i8, i8), Seq<GameMove>> {
    picks(lr_outcomes(state, left, t), piece_game_moves(t), false, piece_moves_upto(t, 4).len())
}

// Whether the drop left the board with nothing outside the side area and
// no hole in it.
fn lr_drop_ok(board: &Board, left: bool) -> (b: bool)
    requires
        board.wf(),
    ensures
        b == lr_drop_clean(board.matrix@, left),
{
    let mut i: i32 = 0;
    while i < 10 - LR_WIDTH
        invariant
            0 <= i <= 7,
            board.wf(),
            forall|j: int| 0 <= j < i ==> #[trigger] col_height(board.matrix@, outside_nth(left, j)) == 0,
        decreases 7 - i,
    {
        let col = if left {
            (LEFT_COL + LR_WIDTH) + i
        } else {
            (10 - RIGHT_COL - LR_WIDTH) + i
        };
        assert(col == outside_nth(left, i as int));
        assert(board.col_wf(col as int));
        if board.height_map[col as usize] != 0 {
            proof {
                assert(outside_col(left, col as int));
            }
            return false;
        }
        i += 1;
    }
    let mut i: i32 = 0;
    while i < LR_WIDTH
        invariant
            0 <= i <= 3,
            board.wf(),
            forall|j: int| 0 <= j < i ==> #[trigger] col_holes(board.matrix@, lr_col(left) + j) == 0,
        decreases 3 - i,
    {
        let col = if left {
            LEFT_COL + i
        } else {
            RIGHT_COL + i
        };
        assert(board.col_wf(col as int));
        if board.holes[col as usize] != 0 {
            assert(col == lr_col(left) + i);
            assert(col_holes(board.matrix@, lr_col(left) + i) != 0);
            return false;
        }
        i += 1;
    }
    proof {
        assert forall|c: int| #[trigger] outside_col(left, c) implies col_height(board.matrix@, c) == 0 by {
            let j = if left { c - 3 } else { c };
            assert(col_height(board.matrix@, outside_nth(left, j)) == 0);
        }
    }
    true
}

impl C4WTransitions {
    /// The children of side state `state` of the left area (or the right),
    /// for each piece number: every side state that a drop of the piece
    /// leads to, when it stays in the area, leaves no hole and keeps the
    /// heights within `LR_MAX_DIFF` of each other, heights taken less their
    /// lowest; of several drops to one state, the shortest is kept.
    pub fn lr_gen_transitions(state: (i8, i8, i8), left: bool) -> (ret: Vec<Vec<((i8, i8, i8), Vec<GameMove>)>>)
        requires
            0 <= state.0 <= 24,
            0 <= state.1 <= 24,
            0 <= state.2 <= 24,
        ensures
            ret@.len() == 7,
            forall|t: int| 0 <= t < 7 ==> lists_map(#[trigger] ret@[t]@, lr_picks(state, left, t)),
            forall|t: int| 0 <= t < 7 ==> (#[trigger] ret@[t])@.len() <= 240,
    {
        let types = PieceType::iter_types();
        let mut ret: Vec<Vec<((i8, i8, i8), Vec<GameMove>)>> = Vec::new();
        let mut ti: usize = 0;
        while ti < 7
            invariant
                0 <= ti <= 7,
                0 <= state.0 <= 24,
                0 <= state.1 <= 24,
                0 <= state.2 <= 24,
                types@.len() == 7,
                forall|i: int| 0 <= i < 7 ==> (#[trigger] types@[i]).index() == i,
                ret@.len() == ti,
                forall|t: int| 0 <= t < ti ==> lists_map(#[trigger] ret@[t]@, lr_picks(state, left, t)),
                forall|t: int| 0 <= t < ti ==> (#[trigger] ret@[t])@.len() <= 240,
            decreases 7 - ti,
        {
            let t = types[ti];
            let piece = Piece::new(t);
            let lists = gen_piece_moves(&piece);
            let ghost ts = ti as int;
            let ghost outcomes = lr_outcomes(state, left, ts);
            let ghost gms = piece_game_moves(ts);
            proof {
                assert(lists@.map_values(|v: Vec<PieceMove>| v@).len() == lists@.len());
                lemma_piece_moves_len(ts, 4);
                assert(c4w_type_of(ts) == t) by {
                    crate::c4w::piece::lemma_c4w_type_of_index(t);
                }
            }
            let mut children: Vec<((i8, i8, i8), Vec<GameMove>)> = Vec::new();
            let mut i: usize = 0;
            while i < lists.len()
                invariant
                    0 <= i <= lists@.len(),
                    0 <= state.0 <= 24,
                    0 <= state.1 <= 24,
                    0 <= state.2 <= 24,
                    t.index() == ts,
                    0 <= ts < 7,
                    c4w_type_of(ts) == t,
                    lists@.map_values(|v: Vec<PieceMove>| v@) == piece_moves_upto(ts, 4),
                    outcomes == lr_outcomes(state, left, ts),
                    gms == piece_game_moves(ts),
                    lists_map(children@, picks(outcomes, gms, false, i as nat)),
                    children@.len() <= i,
                    lists@.len() <= 240,
                decreases lists@.len() - i,
            {
                let ghost lst = lists@[i as int]@;
                proof {
                    assert(lists@.map_values(|v: Vec<PieceMove>| v@)[i as int] == lst);
                    lemma_picks_step(outcomes, gms, false, i as nat);
                }
                let mut board = Board::new();
                C4WTransitions::lr_set_state(&mut board, state, left);
                proof {
                    assert forall|c: int, y: int| 0 <= c < 16 && 0 <= y < 24 implies #[trigger] cell(
                        board.matrix@,
                        c,
                        y,
                    ) == if c == lr_col(left) {
                        y < state.0
                    } else if c == lr_col(left) + 1 {
                        y < state.1
                    } else if c == lr_col(left) + 2 {
                        y < state.2
                    } else {
                        false
                    } by {
                        if c >= 10 {
                            lemma_zero_has_no_bit(c as u16);
                        }
                    }
                    lemma_lr_matrix(board.matrix@, state, left);
                }
                play_piece(&mut board, t, &lists[i]);
                let ghost m2 = board.matrix@;
                let clean = lr_drop_ok(&board, left);
                let h = C4WTransitions::lr_get_state(&board, left);
                proof {
                    assert(board.col_wf(lr_col(left)));
                    assert(board.col_wf(lr_col(left) + 1));
                    assert(board.col_wf(lr_col(left) + 2));
                    crate::common::board::lemma_height_props(m2, lr_col(left), 24);
                    crate::common::board::lemma_height_props(m2, lr_col(left) + 1, 24);
                    crate::common::board::lemma_height_props(m2, lr_col(left) + 2, 24);
                    assert(h == area_heights(m2, left));
                }
                let lo = if h.0 <= h.1 && h.0 <= h.2 {
                    h.0
                } else if h.1 <= h.2 {
                    h.1
                } else {
                    h.2
                };
                let hi = if h.0 >= h.1 && h.0 >= h.2 {
                    h.0
                } else if h.1 >= h.2 {
                    h.1
                } else {
                    h.2
                };
                if clean && hi - lo <= LR_MAX_DIFF as i8 {
                    let new_state = (h.0 - lo, h.1 - lo, h.2 - lo);
                    proof {
                        assert(new_state == trimmed(h));
                        assert(outcomes[i as int] == Some(new_state));
                    }
                    let gm = to_game_moves(&lists[i]);
                    proof {
                        assert(gms[i as int] == gm@);
                    }
                    upsert(&mut children, new_state, gm, false, Ghost(picks(outcomes, gms, false, i as nat)));
                } else {
                    proof {
                        assert(outcomes[i as int] is None);
                    }
                }
                i += 1;
            }
            proof {
                assert(piece_moves_upto(ts, 4).len() == lists@.len());
            }
            ret.push(children);
            proof {
                assert forall|t2: int| 0 <= t2 <= ti implies lists_map(#[trigger] ret@[t2]@, lr_picks(state, left, t2)) by {
                    if t2 < ti {
                    }
                }
                assert forall|t2: int| 0 <= t2 <= ti implies (#[trigger] ret@[t2])@.len() <= 240 by {
                    if t2 < ti {
                    }
                }
            }
            ti += 1;
        }
        ret
    }
}

/// A list of children with their moves taken by view.
pub open spec fn list_view<K>(l: Seq<(K, Vec<GameMove>)>) -> Seq<(K, Seq<GameMove>)> {
    l.map_values(|e: (K, Vec<GameMove>)| (e.0, e.1@))
}

/// The children of `l` whose keys lie in `r`, in order.
pub open spec fn within<K>(l: Seq<(K, Seq<GameMove>)>, r: Set<K>) -> Seq<(K, Seq<GameMove>)>
    decreases l.len(),
{
    if l.len() == 0 {
        l
    } else {
        let rest = within(l.drop_last(), r);
        if r.contains(l.last().0) {
            rest.push(l.last())
        } else {
            rest
        }
    }
}

/// Some list of `lists` holds child `c`.
pub open spec fn has_child<K>(lists: Seq<Vec<(K, Vec<GameMove>)>>, c: K) -> bool {
    exists|p: int, i: int| 0 <= p < lists.len() && 0 <= i < lists[p]@.len() && #[trigger] lists[p]@[i].0 == c
}

/// A generator's lists for a state: seven, of at most 240 children each,
/// each with its keys once, every key meeting `ok`.
pub open spec fn gen_ok<K>(lists: Seq<Vec<(K, Vec<GameMove>)>>, ok: spec_fn(K) -> bool) -> bool {
    &&& lists.len() == 7
    &&& forall|p: int| 0 <= p < 7 ==> (#[trigger] lists[p])@.len() <= 240
    &&& forall|p: int, a: int, b: int|
        0 <= p < 7 && 0 <= a < b < lists[p]@.len() ==> #[trigger] lists[p]@[a].0 != #[trigger] lists[p]@[b].0
    &&& forall|p: int, i: int| 0 <= p < 7 && 0 <= i < lists[p]@.len() ==> ok(#[trigger] lists[p]@[i].0)
}

fn contains_key<K: ChildKey>(keys: &Vec<K>, k: &K) -> (b: bool)
    ensures
        b == keys@.contains(*k),
{
    let mut i: usize = 0;
    while i < keys.len()
        invariant
            0 <= i <= keys@.len(),
            forall|j: int| 0 <= j < i ==> keys@[j] != *k,
        decreases keys@.len() - i,
    {
        if keys[i].same(k) {
            assert(keys@[i as int] == *k);
            return true;
        }
        i += 1;
    }
    false
}

fn lists_have_child<K: ChildKey>(lists: &Vec<Vec<(K, Vec<GameMove>)>>, c: &K) -> (b: bool)
    ensures
        b == has_child(lists@, *c),
{
    let mut p: usize = 0;
    while p < lists.len()
        invariant
            0 <= p <= lists@.len(),
            forall|q: int, i: int| 0 <= q < p && 0 <= i < lists@[q]@.len() ==> #[trigger] lists@[q]@[i].0 != *c,
        decreases lists@.len() - p,
    {
        let mut i: usize = 0;
        while i < lists[p].len()
            invariant
                0 <= p < lists@.len(),
                0 <= i <= lists@[p as int]@.len(),
                forall|q: int, j: int| 0 <= q < p && 0 <= j < lists@[q]@.len() ==> #[trigger] lists@[q]@[j].0 != *c,
                forall|j: int| 0 <= j < i ==> lists@[p as int]@[j].0 != *c,
            decreases lists@[p as int]@.len() - i,
        {
            if lists[p][i].0.same(c) {
                assert(lists@[p as int]@[i as int].0 == *c);
                return true;
            }
            i += 1;
        }
        p += 1;
    }
    false
}

fn copy_moves(moves: &Vec<GameMove>) -> (out: Vec<GameMove>)
    ensures
        out@ == moves@,
{
    let mut out: Vec<GameMove> = Vec::new();
    let mut j: usize = 0;
    while j < moves.len()
        invariant
            0 <= j <= moves@.len(),
            out@ == moves@.take(j as int),
        decreases moves@.len() - j,
    {
        out.push(moves[j]);
        assert(out@ =~= moves@.take(j + 1));
        j += 1;
    }
    assert(moves@.take(j as int) =~= moves@);
    out
}

// The children of each list whose keys lie in `keep`, and how many there
// are in all.
fn prune_lists<K: ChildKey>(lists: &Vec<Vec<(K, Vec<GameMove>)>>, keep: &Vec<K>) -> (res: (
    Vec<Vec<(K, Vec<GameMove>)>>,
    usize,
))
    requires
        lists@.len() == 7,
        forall|p: int| 0 <= p < 7 ==> lists@[p]@.len() <= 0x10000,
    ensures
        res.0@.len() == 7,
        forall|p: int| 0 <= p < 7 ==> list_view((#[trigger] res.0@[p])@) == within(list_view(lists@[p]@), keep@.to_set()),
        (res.1 > 0) == (exists|p: int| 0 <= p < 7 && (#[trigger] res.0@[p])@.len() > 0),
{
    let ghost r = keep@.to_set();
    let mut out: Vec<Vec<(K, Vec<GameMove>)>> = Vec::new();
    let mut count: usize = 0;
    let mut p: usize = 0;
    while p < 7
        invariant
            0 <= p <= 7,
            lists@.len() == 7,
            forall|q: int| 0 <= q < 7 ==> lists@[q]@.len() <= 0x10000,
            r == keep@.to_set(),
            out@.len() == p,
            forall|q: int| 0 <= q < p ==> list_view((#[trigger] out@[q])@) == within(list_view(lists@[q]@), r),
            count <= p * 0x10000,
            (count > 0) == (exists|q: int| 0 <= q < p && (#[trigger] out@[q])@.len() > 0),
        decreases 7 - p,
    {
        let src = &lists[p];
        let mut kept: Vec<(K, Vec<GameMove>)> = Vec::new();
        let mut i: usize = 0;
        while i < src.len()
            invariant
                0 <= i <= src@.len(),
                src@.len() <= 0x10000,
                r == keep@.to_set(),
                list_view(kept@) == within(list_view(src@.take(i as int)), r),
                kept@.len() <= i,
            decreases src@.len() - i,
        {
            assert(list_view(src@.take(i + 1)).drop_last() =~= list_view(src@.take(i as int)));
            assert(list_view(src@.take(i + 1)).last() == (src@[i as int].0, src@[i as int].1@));
            if contains_key(keep, &src[i].0) {
                let key = src[i].0.copy();
                let moves = copy_moves(&src[i].1);
                let ghost before = kept@;
                kept.push((key, moves));
                assert(list_view(kept@) =~= list_view(before).push((key, moves@)));
            }
            i += 1;
        }
        assert(src@.take(i as int) =~= src@);
        let ghost old_count = count;
        count = count + kept.len();
        let ghost before = out@;
        out.push(kept);
        proof {
            assert forall|q: int| 0 <= q <= p implies list_view((#[trigger] out@[q])@) == within(list_view(lists@[q]@), r) by {
                if q < p {
                    assert(out@[q] == before[q]);
                }
            }
            assert forall|q: int| 0 <= q < p implies #[trigger] out@[q] == before[q] by {}
            if count > 0 {
                if old_count > 0 {
                    let q = choose|q: int| 0 <= q < p && (#[trigger] before[q])@.len() > 0;
                    assert(out@[q] == before[q]);
                } else {
                    assert(out@[p as int]@.len() > 0);
                }
            } else {
                assert forall|q: int| 0 <= q <= p implies (#[trigger] out@[q])@.len() == 0 by {
                    if q < p {
                        assert(out@[q] == before[q]);
                    }
                }
            }
        }
        p += 1;
    }
    let res = (out, count);
    assert(res.0@ == out@);
    assert((res.1 > 0) == (exists|q: int| 0 <= q < 7 && (#[trigger] res.0@[q])@.len() > 0)) by {
        if count > 0 {
            let q = choose|q: int| 0 <= q < 7 && (#[trigger] out@[q])@.len() > 0;
            assert(res.0@[q] == out@[q]);
        }
    }
    res
}

/// The keys of a table of states.
pub open spec fn table_keys<K>(table: Seq<(K, Vec<Vec<(K, Vec<GameMove>)>>)>) -> Seq<K> {
    table.map_values(|e: (K, Vec<Vec<(K, Vec<GameMove>)>>)| e.0)
}

/// `k` is `seed`, or a child of a state of `table`.
pub open spec fn found_in<K>(table: Seq<(K, Vec<Vec<(K, Vec<GameMove>)>>)>, seed: K, k: K) -> bool {
    k == seed || exists|g: int| 0 <= g < table.len() && #[trigger] has_child(table[g].1@, k)
}

/// Every state of `table` but `seed` is a child of a state listed before
/// it: each is reached from `seed` through the listed children.
pub open spec fn found_from<K>(table: Seq<(K, Vec<Vec<(K, Vec<GameMove>)>>)>, seed: K) -> bool {
    forall|e: int| 0 <= e < table.len() ==> #[trigger] found_in(table.take(e), seed, table[e].0)
}

proof fn lemma_found_in_push<K>(
    table: Seq<(K, Vec<Vec<(K, Vec<GameMove>)>>)>,
    entry: (K, Vec<Vec<(K, Vec<GameMove>)>>),
    seed: K,
    k: K,
)
    requires
        found_in(table, seed, k) || has_child(entry.1@, k),
    ensures
        found_in(table.push(entry), seed, k),
{
    let t2 = table.push(entry);
    if k != seed {
        if has_child(entry.1@, k) {
            assert(t2[table.len() as int] == entry);
            assert(has_child(t2[table.len() as int].1@, k));
        } else {
            let g = choose|g: int| 0 <= g < table.len() && #[trigger] has_child(table[g].1@, k);
            assert(t2[g] == table[g]);
            assert(has_child(t2[g].1@, k));
        }
    }
}

proof fn lemma_found_from_push<K>(
    table: Seq<(K, Vec<Vec<(K, Vec<GameMove>)>>)>,
    entry: (K, Vec<Vec<(K, Vec<GameMove>)>>),
    seed: K,
)
    requires
        found_from(table, seed),
        found_in(table, seed, entry.0),
    ensures
        found_from(table.push(entry), seed),
{
    let t2 = table.push(entry);
    assert forall|e: int| 0 <= e < t2.len() implies #[trigger] found_in(t2.take(e), seed, t2[e].0) by {
        if e < table.len() {
            assert(t2.take(e) =~= table.take(e));
            assert(t2[e] == table[e]);
            assert(found_in(table.take(e), seed, table[e].0));
        } else {
            assert(t2.take(e) =~= table);
        }
    }
}

// Every state that the generator's children lead to from `seed`, each with
// its generated lists.
#[verifier::spinoff_prover]
fn discover<K: ChildKey, F: Fn(&K) -> Vec<Vec<(K, Vec<GameMove>)>>>(
    seed: K,
    gen: &F,
    Ghost(ok): Ghost<spec_fn(K) -> bool>,
) -> (table: Vec<(K, Vec<Vec<(K, Vec<GameMove>)>>)>)
    requires
        ok(seed),
        forall|k: K| ok(k) ==> call_requires(*gen, (&k,)),
        forall|k: K, r: Vec<Vec<(K, Vec<GameMove>)>>| ok(k) && call_ensures(*gen, (&k,), r) ==> gen_ok(r@, ok),
    ensures
        table_keys(table@).no_duplicates(),
        table_keys(table@).contains(seed),
        forall|e: int|
            0 <= e < table@.len() ==> ok(#[trigger] table@[e].0) && call_ensures(*gen, (&table@[e].0,), table@[e].1)
                && gen_ok(table@[e].1@, ok),
        forall|e: int, c: K| 0 <= e < table@.len() && #[trigger] has_child(table@[e].1@, c) ==> table_keys(table@).contains(c),
        found_from(table@, seed),
{
    let mut table: Vec<(K, Vec<Vec<(K, Vec<GameMove>)>>)> = Vec::new();
    let mut active: Vec<K> = Vec::new();
    let mut visited: Vec<K> = Vec::new();
    active.push(seed.copy());
    visited.push(seed.copy());
    proof {
        assert(table_keys(table@) =~= Seq::<K>::empty());
        lemma_distinct_keys_bounded(visited@);
        assert(visited@[0] == seed);
        assert(active@[0] == seed);
    }
    while active.len() > 0
        invariant
            ok(seed),
            forall|k: K| ok(k) ==> call_requires(*gen, (&k,)),
            forall|k: K, r: Vec<Vec<(K, Vec<GameMove>)>>| ok(k) && call_ensures(*gen, (&k,), r) ==> gen_ok(r@, ok),
            visited@.no_duplicates(),
            visited@.len() <= K::code_bound(),
            forall|i: int| 0 <= i < visited@.len() ==> ok(#[trigger] visited@[i]),
            visited@.contains(seed),
            active@.no_duplicates(),
            forall|i: int| 0 <= i < active@.len() ==> visited@.contains(#[trigger] active@[i]),
            forall|i: int| 0 <= i < active@.len() ==> !table_keys(table@).contains(#[trigger] active@[i]),
            table_keys(table@).no_duplicates(),
            forall|k: K| #[trigger] visited@.contains(k) ==> active@.contains(k) || table_keys(table@).contains(k),
            forall|k: K| #[trigger] table_keys(table@).contains(k) ==> visited@.contains(k),
            forall|e: int|
                0 <= e < table@.len() ==> ok(#[trigger] table@[e].0) && call_ensures(*gen, (&table@[e].0,), table@[e].1)
                    && gen_ok(table@[e].1@, ok),
            forall|e: int, c: K| 0 <= e < table@.len() && #[trigger] has_child(table@[e].1@, c) ==> visited@.contains(c),
            forall|k: K| #[trigger] visited@.contains(k) ==> found_in(table@, seed, k),
            found_from(table@, seed),
        decreases 2 * (K::code_bound() - visited@.len()) + active@.len(),
    {
        let ghost a_before = active@;
        let state = active.pop().unwrap();
        proof {
            assert(a_before == active@.push(state));
            assert forall|k: K| #[trigger] visited@.contains(k) implies k == state || active@.contains(k)
                || table_keys(table@).contains(k) by {
                if a_before.contains(k) && k != state {
                    let j = choose|j: int| 0 <= j < a_before.len() && a_before[j] == k;
                    assert(active@[j] == k);
                }
            }
            assert(!active@.contains(state)) by {
                if active@.contains(state) {
                    let j = choose|j: int| 0 <= j < active@.len() && active@[j] == state;
                    assert(a_before[j] == a_before[a_before.len() - 1]);
                }
            }
        }
        let ghost v0 = visited@.len();
        let ghost a0 = active@.len();
        proof {
            assert(visited@.contains(state));
            let i = choose|i: int| 0 <= i < visited@.len() && visited@[i] == state;
            assert(ok(visited@[i]));
        }
        let lists = gen(&state);
        let mut p: usize = 0;
        while p < lists.len()
            invariant
                gen_ok(lists@, ok),
                0 <= p <= 7,
                forall|k: K| ok(k) ==> call_requires(*gen, (&k,)),
                forall|k: K, r: Vec<Vec<(K, Vec<GameMove>)>>| ok(k) && call_ensures(*gen, (&k,), r) ==> gen_ok(r@, ok),
                visited@.no_duplicates(),
                visited@.len() <= K::code_bound(),
                visited@.len() - active@.len() == v0 - a0,
                v0 <= visited@.len(),
                forall|i: int| 0 <= i < visited@.len() ==> ok(#[trigger] visited@[i]),
                visited@.contains(seed),
                visited@.contains(state),
                active@.no_duplicates(),
                !active@.contains(state),
                !table_keys(table@).contains(state),
                forall|i: int| 0 <= i < active@.len() ==> visited@.contains(#[trigger] active@[i]),
                forall|i: int| 0 <= i < active@.len() ==> !table_keys(table@).contains(#[trigger] active@[i]),
                forall|k: K| #[trigger] visited@.contains(k) ==> k == state || active@.contains(k) || table_keys(table@).contains(k),
                forall|k: K| #[trigger] table_keys(table@).contains(k) ==> visited@.contains(k),
                forall|e: int, c: K| 0 <= e < table@.len() && #[trigger] has_child(table@[e].1@, c) ==> visited@.contains(c),
                forall|q: int, i: int| 0 <= q < p && 0 <= i < lists@[q]@.len() ==> visited@.contains(#[trigger] lists@[q]@[i].0),
                forall|k: K| #[trigger] visited@.contains(k) ==> found_in(table@, seed, k) || has_child(lists@, k),
                found_from(table@, seed),
                found_in(table@, seed, state),
            decreases 7 - p,
        {
            let mut i: usize = 0;
            while i < lists[p].len()
                invariant
                    gen_ok(lists@, ok),
                    0 <= p < 7,
                    0 <= i <= lists@[p as int]@.len(),
                    visited@.no_duplicates(),
                    visited@.len() <= K::code_bound(),
                    visited@.len() - active@.len() == v0 - a0,
                    v0 <= visited@.len(),
                    forall|j: int| 0 <= j < visited@.len() ==> ok(#[trigger] visited@[j]),
                    visited@.contains(seed),
                    visited@.contains(state),
                    active@.no_duplicates(),
                    !active@.contains(state),
                    !table_keys(table@).contains(state),
                    forall|j: int| 0 <= j < active@.len() ==> visited@.contains(#[trigger] active@[j]),
                    forall|j: int| 0 <= j < active@.len() ==> !table_keys(table@).contains(#[trigger] active@[j]),
                    forall|k: K| #[trigger] visited@.contains(k) ==> k == state || active@.contains(k) || table_keys(table@).contains(k),
                    forall|k: K| #[trigger] table_keys(table@).contains(k) ==> visited@.contains(k),
                    forall|e: int, c: K| 0 <= e < table@.len() && #[trigger] has_child(table@[e].1@, c) ==> visited@.contains(c),
                    forall|q: int, j: int| 0 <= q < p && 0 <= j < lists@[q]@.len() ==> visited@.contains(#[trigger] lists@[q]@[j].0),
                    forall|j: int| 0 <= j < i ==> visited@.contains(#[trigger] lists@[p as int]@[j].0),
                    forall|k: K| #[trigger] visited@.contains(k) ==> found_in(table@, seed, k) || has_child(lists@, k),
                    found_from(table@, seed),
                    found_in(table@, seed, state),
                decreases lists@[p as int]@.len() - i,
            {
                let child = &lists[p][i].0;
                if !contains_key(&visited, child) {
                    proof {
                        assert(ok(lists@[p as int]@[i as int].0));
                        assert((visited@.push(*child)).no_duplicates());
                        lemma_distinct_keys_bounded(visited@.push(*child));
                        assert(!table_keys(table@).contains(*child));
                        assert(!active@.contains(*child));
                    }
                    let ghost va = visited@;
                    let ghost aa = active@;
                    active.push(child.copy());
                    visited.push(child.copy());
                    proof {
                        assert forall|k: K| #[trigger] visited@.contains(k) implies k == state || active@.contains(k)
                            || table_keys(table@).contains(k) by {
                            if k != *child {
                                assert(va.contains(k));
                                if aa.contains(k) {
                                    let j = choose|j: int| 0 <= j < aa.len() && aa[j] == k;
                                    assert(active@[j] == k);
                                }
                            } else {
                                assert(active@[aa.len() as int] == k);
                            }
                        }
                        assert forall|k: K| #[trigger] va.contains(k) implies visited@.contains(k) by {
                            let j = choose|j: int| 0 <= j < va.len() && va[j] == k;
                            assert(visited@[j] == k);
                        }
                        assert(visited@[va.len() as int] == *child);
                        assert forall|k: K| #[trigger] visited@.contains(k) implies found_in(table@, seed, k) || has_child(lists@, k) by {
                            if k == *child {
                                assert(lists@[p as int]@[i as int].0 == k);
                            } else {
                                let j = choose|j: int| 0 <= j < visited@.len() && visited@[j] == k;
                                assert(j < va.len());
                                assert(va[j] == k);
                                assert(va.contains(k));
                            }
                        }
                        assert forall|j: int| 0 <= j < active@.len() implies visited@.contains(#[trigger] active@[j]) by {
                            if j < aa.len() {
                                assert(active@[j] == aa[j]);
                            }
                        }
                    }
                }
                i += 1;
            }
            p += 1;
        }
        let ghost tb = table@;
        proof {
            assert(table_keys(tb.push((state, lists))) =~= table_keys(tb).push(state));
            assert forall|c: K| has_child(lists@, c) implies visited@.contains(c) by {
                let (q, j) = choose|q: int, j: int| 0 <= q < lists@.len() && 0 <= j < lists@[q]@.len() && #[trigger] lists@[q]@[j].0 == c;
                assert(visited@.contains(lists@[q]@[j].0));
            }
        }
        table.push((state, lists));
        proof {
            assert(table_keys(table@) == table_keys(tb).push(state));
            assert forall|e: int| 0 <= e < table@.len() implies ok(#[trigger] table@[e].0) && call_ensures(*gen, (&table@[e].0,), table@[e].1)
                && gen_ok(table@[e].1@, ok) by {
                if e < tb.len() {
                    assert(table@[e] == tb[e]);
                }
            }
            assert forall|e: int, c: K| 0 <= e < table@.len() && #[trigger] has_child(table@[e].1@, c) implies visited@.contains(c) by {
                if e < tb.len() {
                    assert(table@[e] == tb[e]);
                } else {
                    assert(table@[e] == (state, lists));
                    let (q, j) = choose|q: int, j: int| 0 <= q < lists@.len() && 0 <= j < lists@[q]@.len() && #[trigger] lists@[q]@[j].0 == c;
                    assert(visited@.contains(lists@[q]@[j].0));
                }
            }
            assert forall|k: K| #[trigger] visited@.contains(k) implies active@.contains(k) || table_keys(table@).contains(k) by {
                if k == state {
                    assert(table_keys(table@)[tb.len() as int] == state);
                } else if table_keys(tb).contains(k) {
                    let j = choose|j: int| 0 <= j < tb.len() && table_keys(tb)[j] == k;
                    assert(table_keys(table@)[j] == k);
                }
            }
            assert forall|k: K| #[trigger] table_keys(table@).contains(k) implies visited@.contains(k) by {
                let j = choose|j: int| 0 <= j < table@.len() && table_keys(table@)[j] == k;
                if j < tb.len() {
                    assert(table_keys(tb)[j] == k);
                    assert(table_keys(tb).contains(k));
                } else {
                    assert(k == state);
                }
            }
            assert forall|j: int| 0 <= j < active@.len() implies !table_keys(table@).contains(#[trigger] active@[j]) by {
                assert(active@[j] != state);
                if table_keys(table@).contains(active@[j]) {
                    let x = choose|x: int| 0 <= x < table@.len() && table_keys(table@)[x] == active@[j];
                    if x < tb.len() {
                        assert(table_keys(tb)[x] == active@[j]);
                    }
                }
            }
        }
        proof {
            assert forall|k: K| #[trigger] visited@.contains(k) implies found_in(table@, seed, k) by {
                lemma_found_in_push(tb, (state, lists), seed, k);
            }
            lemma_found_from_push(tb, (state, lists), seed);
        }
    }
    proof {
        assert forall|e: int, c: K| 0 <= e < table@.len() && #[trigger] has_child(table@[e].1@, c) implies table_keys(table@).contains(c) by {
            assert(visited@.contains(c));
        }
    }
    table
}

/// Every state of `reach` but `seed` is a state of `table` with a child in
/// `reach` of lower rank: each leads back to `seed`.
pub open spec fn leads_back<K>(
    table: Seq<(K, Vec<Vec<(K, Vec<GameMove>)>>)>,
    reach: Seq<K>,
    rank: Map<K, nat>,
    seed: K,
) -> bool {
    forall|x: K|
        #[trigger] reach.contains(x) && x != seed ==> exists|e: int, y: int|
            0 <= e < table.len() && table[e].0 == x && 0 <= y < reach.len() && #[trigger] has_child(
                table[e].1@,
                reach[y],
            ) && rank.contains_key(reach[y]) && rank.contains_key(x) && rank[reach[y]] < rank[x]
}

/// Every state of `table` with a child in `reach` is in `reach`.
pub open spec fn parents_in<K>(table: Seq<(K, Vec<Vec<(K, Vec<GameMove>)>>)>, reach: Seq<K>) -> bool {
    forall|e: int, y: K|
        0 <= e < table.len() && reach.contains(y) && #[trigger] has_child(table[e].1@, y) ==> reach.contains(table[e].0)
}

// The states of `table` that lead back to `seed`, `seed` among them.
fn reach_back<K: ChildKey>(table: &Vec<(K, Vec<Vec<(K, Vec<GameMove>)>>)>, seed: &K) -> (res: (Vec<K>, Ghost<Map<K, nat>>))
    ensures
        res.0@.no_duplicates(),
        res.0@.contains(*seed),
        leads_back(table@, res.0@, res.1@, *seed),
        parents_in(table@, res.0@),
{
    let mut reach: Vec<K> = Vec::new();
    let mut active: Vec<K> = Vec::new();
    reach.push(seed.copy());
    active.push(seed.copy());
    let ghost mut rank: Map<K, nat> = Map::empty().insert(*seed, 0nat);
    proof {
        lemma_distinct_keys_bounded(reach@);
        assert(reach@[0] == *seed);
        assert(active@[0] == *seed);
    }
    while active.len() > 0
        invariant
            reach@.no_duplicates(),
            reach@.len() <= K::code_bound(),
            reach@.contains(*seed),
            active@.no_duplicates(),
            forall|i: int| 0 <= i < active@.len() ==> reach@.contains(#[trigger] active@[i]),
            forall|x: K| #[trigger] reach@.contains(x) ==> rank.contains_key(x),
            leads_back(table@, reach@, rank, *seed),
            forall|e: int, y: K|
                0 <= e < table@.len() && reach@.contains(y) && !active@.contains(y) && #[trigger] has_child(table@[e].1@, y)
                    ==> reach@.contains(table@[e].0),
        decreases 2 * (K::code_bound() - reach@.len()) + active@.len(),
    {
        let ghost a_before = active@;
        let s = active.pop().unwrap();
        let ghost r0 = reach@.len();
        let ghost a0 = active@.len();
        proof {
            assert(a_before == active@.push(s));
            assert(reach@.contains(s)) by {
                assert(a_before[a_before.len() - 1] == s);
            }
            assert(!active@.contains(s)) by {
                if active@.contains(s) {
                    let j = choose|j: int| 0 <= j < active@.len() && active@[j] == s;
                    assert(a_before[j] == a_before[a_before.len() - 1]);
                }
            }
            assert forall|i: int| 0 <= i < active@.len() implies reach@.contains(#[trigger] active@[i]) by {
                assert(active@[i] == a_before[i]);
            }
            assert forall|e: int, y: K|
                0 <= e < table@.len() && reach@.contains(y) && !active@.contains(y) && y != s && #[trigger] has_child(
                    table@[e].1@,
                    y,
                ) implies reach@.contains(table@[e].0) by {
                if a_before.contains(y) {
                    let j = choose|j: int| 0 <= j < a_before.len() && a_before[j] == y;
                    if j < active@.len() {
                        assert(active@[j] == y);
                    }
                }
            }
        }
        let mut e: usize = 0;
        while e < table.len()
            invariant
                0 <= e <= table@.len(),
                reach@.no_duplicates(),
                reach@.len() <= K::code_bound(),
                reach@.len() - active@.len() == r0 - a0,
                r0 <= reach@.len(),
                reach@.contains(*seed),
                reach@.contains(s),
                active@.no_duplicates(),
                !active@.contains(s),
                forall|i: int| 0 <= i < active@.len() ==> reach@.contains(#[trigger] active@[i]),
                forall|x: K| #[trigger] reach@.contains(x) ==> rank.contains_key(x),
                leads_back(table@, reach@, rank, *seed),
                forall|f: int, y: K|
                    0 <= f < table@.len() && reach@.contains(y) && !active@.contains(y) && y != s && #[trigger] has_child(
                        table@[f].1@,
                        y,
                    ) ==> reach@.contains(table@[f].0),
                forall|f: int| 0 <= f < e && #[trigger] has_child(table@[f].1@, s) ==> reach@.contains(table@[f].0),
            decreases table@.len() - e,
        {
            let parent = &table[e].0;
            if !contains_key(&reach, parent) && lists_have_child(&table[e].1, &s) {
                proof {
                    assert((reach@.push(*parent)).no_duplicates());
                    lemma_distinct_keys_bounded(reach@.push(*parent));
                    assert(!active@.contains(*parent));
                }
                let ghost ra = reach@;
                let ghost aa = active@;
                let ghost rk = rank;
                reach.push(parent.copy());
                active.push(parent.copy());
                proof {
                    rank = rank.insert(*parent, rank[s] + 1);
                    assert(reach@[ra.len() as int] == *parent);
                    assert(active@[aa.len() as int] == *parent);
                    assert forall|x: K| #[trigger] ra.contains(x) implies reach@.contains(x) by {
                        let j = choose|j: int| 0 <= j < ra.len() && ra[j] == x;
                        assert(reach@[j] == x);
                    }
                    assert forall|x: K| #[trigger] reach@.contains(x) implies ra.contains(x) || x == *parent by {
                        let j = choose|j: int| 0 <= j < reach@.len() && reach@[j] == x;
                        if j < ra.len() {
                            assert(ra[j] == x);
                        }
                    }
                    assert forall|i: int| 0 <= i < active@.len() implies reach@.contains(#[trigger] active@[i]) by {
                        if i < aa.len() {
                            assert(active@[i] == aa[i]);
                        }
                    }
                    assert forall|x: K| #[trigger] reach@.contains(x) && x != *seed implies exists|f: int, y: int|
                        0 <= f < table@.len() && table@[f].0 == x && 0 <= y < reach@.len() && #[trigger] has_child(
                            table@[f].1@,
                            reach@[y],
                        ) && rank.contains_key(reach@[y]) && rank.contains_key(x) && rank[reach@[y]] < rank[x] by {
                        if x == *parent {
                            let ys = choose|ys: int| 0 <= ys < ra.len() && ra[ys] == s;
                            assert(reach@[ys] == s);
                            assert(has_child(table@[e as int].1@, reach@[ys]));
                        } else {
                            assert(ra.contains(x));
                            let (f, y) = choose|f: int, y: int|
                                0 <= f < table@.len() && table@[f].0 == x && 0 <= y < ra.len() && #[trigger] has_child(
                                    table@[f].1@,
                                    ra[y],
                                ) && rk.contains_key(ra[y]) && rk.contains_key(x) && rk[ra[y]] < rk[x];
                            assert(reach@[y] == ra[y]);
                            assert(ra[y] != *parent);
                        }
                    }
                    assert forall|f: int, y: K|
                        0 <= f < table@.len() && reach@.contains(y) && !active@.contains(y) && y != s && #[trigger] has_child(
                            table@[f].1@,
                            y,
                        ) implies reach@.contains(table@[f].0) by {
                        if y != *parent {
                            assert(ra.contains(y));
                            if aa.contains(y) {
                                let j = choose|j: int| 0 <= j < aa.len() && aa[j] == y;
                                assert(active@[j] == y);
                            }
                            assert(ra.contains(table@[f].0));
                        } else {
                            assert(active@.contains(y));
                        }
                    }
                    assert forall|f: int| 0 <= f <= e && #[trigger] has_child(table@[f].1@, s) implies reach@.contains(table@[f].0) by {
                        if f < e {
                            assert(ra.contains(table@[f].0));
                        }
                    }
                }
            } else {
                proof {
                    assert forall|f: int| 0 <= f <= e && #[trigger] has_child(table@[f].1@, s) implies reach@.contains(table@[f].0) by {
                    }
                }
            }
            e += 1;
        }
        proof {
            assert forall|f: int, y: K|
                0 <= f < table@.len() && reach@.contains(y) && !active@.contains(y) && #[trigger] has_child(table@[f].1@, y)
                    implies reach@.contains(table@[f].0) by {
                if y == s {
                }
            }
        }
    }
    proof {
        assert forall|f: int, y: K|
            0 <= f < table@.len() && reach@.contains(y) && #[trigger] has_child(table@[f].1@, y) implies reach@.contains(
            table@[f].0,
        ) by {
            assert(!active@.contains(y));
        }
    }
    (reach, Ghost(rank))
}

/// `within` keeps every child whose key lies in `r`.
proof fn lemma_within_keeps<K>(l: Seq<(K, Seq<GameMove>)>, r: Set<K>, i: int)
    requires
        0 <= i < l.len(),
        r.contains(l[i].0),
    ensures
        within(l, r).contains(l[i]),
    decreases l.len(),
{
    let rest = l.drop_last();
    if i == l.len() - 1 {
        let w = within(l, r);
        assert(w[w.len() - 1] == l[i]);
    } else {
        assert(rest[i] == l[i]);
        lemma_within_keeps(rest, r, i);
        let wr = within(rest, r);
        let j = choose|j: int| 0 <= j < wr.len() && wr[j] == l[i];
        if r.contains(l.last().0) {
            assert(within(l, r)[j] == wr[j]);
        }
    }
}

/// A child in `r` of the lists of `from` stays among them within `r`.
proof fn lemma_child_within<K>(from: Seq<Vec<(K, Vec<GameMove>)>>, r: Set<K>, k: K)
    requires
        has_child(from, k),
        r.contains(k),
    ensures
        exists|p: int, j: int|
            0 <= p < from.len() && 0 <= j < within(list_view(from[p]@), r).len() && (#[trigger] within(
                list_view(from[p]@),
                r,
            )[j]).0 == k,
{
    let (p, i) = choose|p: int, i: int| 0 <= p < from.len() && 0 <= i < from[p]@.len() && #[trigger] from[p]@[i].0 == k;
    let l = list_view(from[p]@);
    assert(l[i] == (k, from[p]@[i].1@));
    lemma_within_keeps(l, r, i);
    let w = within(l, r);
    let j = choose|j: int| 0 <= j < w.len() && w[j] == l[i];
    assert(w[j].0 == k);
}

/// A state found from the seed and leading back to it has its parent
/// among the states kept so far, with itself among that parent's kept
/// children.
proof fn lemma_parent_kept<K>(
    table: Seq<(K, Vec<Vec<(K, Vec<GameMove>)>>)>,
    out: Seq<(K, Vec<Vec<(K, Vec<GameMove>)>>)>,
    reach: Seq<K>,
    f: int,
    seed: K,
    ok: spec_fn(K) -> bool,
)
    requires
        0 <= f < table.len(),
        reach.contains(table[f].0),
        found_from(table, seed),
        parents_in(table, reach),
        table_keys(table).no_duplicates(),
        forall|g: int| 0 <= g < table.len() ==> gen_ok(#[trigger] table[g].1@, ok),
        forall|e: int|
            0 <= e < out.len() ==> exists|g: int|
                0 <= g < table.len() && table[g].0 == (#[trigger] out[e]).0 && reach.contains(out[e].0)
                    && out[e].1@.len() == 7 && (forall|p: int|
                    0 <= p < 7 ==> list_view(#[trigger] out[e].1@[p]@) == within(list_view(table[g].1@[p]@), reach.to_set()))
                    && exists|p: int| 0 <= p < 7 && (#[trigger] out[e].1@[p])@.len() > 0,
        forall|g: int|
            0 <= g < f && reach.contains(#[trigger] table[g].0) && (exists|p: int|
                0 <= p < 7 && within(list_view(table[g].1@[p]@), reach.to_set()).len() > 0) ==> table_keys(out).contains(
                table[g].0,
            ),
    ensures
        found_in(out, seed, table[f].0),
{
    let key = table[f].0;
    let r = reach.to_set();
    if key != seed {
        assert(found_in(table.take(f), seed, table[f].0));
        let g = choose|g: int| 0 <= g < table.take(f).len() && #[trigger] has_child(table.take(f)[g].1@, key);
        assert(table.take(f)[g] == table[g]);
        assert(has_child(table[g].1@, key));
        assert(reach.contains(table[g].0));
        assert(r.contains(key));
        lemma_child_within(table[g].1@, r, key);
        let (p, j) = choose|p: int, j: int|
            0 <= p < table[g].1@.len() && 0 <= j < within(list_view(table[g].1@[p]@), r).len() && (#[trigger] within(
                list_view(table[g].1@[p]@),
                r,
            )[j]).0 == key;
        assert(gen_ok(table[g].1@, ok));
        assert(0 <= p < 7 && within(list_view(table[g].1@[p]@), r).len() > 0);
        assert(table_keys(out).contains(table[g].0));
        let e = choose|e: int| 0 <= e < table_keys(out).len() && table_keys(out)[e] == table[g].0;
        assert(out[e].0 == table[g].0);
        let g2 = choose|g2: int|
            0 <= g2 < table.len() && table[g2].0 == (#[trigger] out[e]).0 && reach.contains(out[e].0)
                && out[e].1@.len() == 7 && (forall|q: int|
                0 <= q < 7 ==> list_view(#[trigger] out[e].1@[q]@) == within(list_view(table[g2].1@[q]@), r))
                && exists|q: int| 0 <= q < 7 && (#[trigger] out[e].1@[q])@.len() > 0;
        assert(table_keys(table)[g2] == table_keys(table)[g]);
        assert(g2 == g);
        let kept = out[e].1@[p]@;
        assert(list_view(kept) == within(list_view(table[g].1@[p]@), r));
        assert(list_view(kept)[j] == (kept[j].0, kept[j].1@));
        assert(kept[j].0 == key);
        assert(has_child(out[e].1@, key));
    }
}

/// The table grown from a seed: every listed state is one of `table` that
/// leads back to the seed, with its lists kept to the children in `reach`,
/// and every such state with a child left is listed.
pub open spec fn grown_table<K>(
    out: Seq<(K, Vec<Vec<(K, Vec<GameMove>)>>)>,
    table: Seq<(K, Vec<Vec<(K, Vec<GameMove>)>>)>,
    reach: Seq<K>,
) -> bool {
    &&& table_keys(out).no_duplicates()
    &&& forall|e: int|
        0 <= e < out.len() ==> exists|f: int|
            0 <= f < table.len() && table[f].0 == (#[trigger] out[e]).0 && reach.contains(out[e].0)
                && out[e].1@.len() == 7 && (forall|p: int|
                0 <= p < 7 ==> list_view(#[trigger] out[e].1@[p]@) == within(list_view(table[f].1@[p]@), reach.to_set()))
                && exists|p: int| 0 <= p < 7 && (#[trigger] out[e].1@[p])@.len() > 0
    &&& forall|f: int|
        0 <= f < table.len() && reach.contains(#[trigger] table[f].0) && (exists|p: int|
            0 <= p < 7 && within(list_view(table[f].1@[p]@), reach.to_set()).len() > 0) ==> table_keys(out).contains(
            table[f].0,
        )
}

/// The transition table grown from `seed` with the generator `gen`: every
/// state that the children lead to from `seed`, kept when it leads back to
/// `seed`, with only the children that do too, and dropped when no child
/// is left.  The result comes with the states found, those that lead back
/// and their ranks.
fn gen_transition_states<K: ChildKey, F: Fn(&K) -> Vec<Vec<(K, Vec<GameMove>)>>>(
    seed: K,
    gen: F,
    Ghost(ok): Ghost<spec_fn(K) -> bool>,
) -> (res: (
    Vec<(K, Vec<Vec<(K, Vec<GameMove>)>>)>,
    Ghost<Seq<(K, Vec<Vec<(K, Vec<GameMove>)>>)>>,
    Ghost<Seq<K>>,
    Ghost<Map<K, nat>>,
))
    requires
        ok(seed),
        forall|k: K| ok(k) ==> call_requires(gen, (&k,)),
        forall|k: K, r: Vec<Vec<(K, Vec<GameMove>)>>| ok(k) && call_ensures(gen, (&k,), r) ==> gen_ok(r@, ok),
    ensures
        table_keys(res.1@).no_duplicates(),
        table_keys(res.1@).contains(seed),
        forall|f: int|
            0 <= f < res.1@.len() ==> ok(#[trigger] res.1@[f].0) && call_ensures(gen, (&res.1@[f].0,), res.1@[f].1)
                && gen_ok(res.1@[f].1@, ok),
        forall|f: int, c: K| 0 <= f < res.1@.len() && #[trigger] has_child(res.1@[f].1@, c) ==> table_keys(res.1@).contains(c),
        res.2@.contains(seed),
        leads_back(res.1@, res.2@, res.3@, seed),
        parents_in(res.1@, res.2@),
        grown_table(res.0@, res.1@, res.2@),
        found_from(res.0@, seed),
{
    let ghost seed0 = seed;
    let table = discover(seed.copy(), &gen, Ghost(ok));
    let (reach, Ghost(rank)) = reach_back(&table, &seed);
    let ghost r = reach@.to_set();
    proof {
        assert forall|g: int| 0 <= g < table@.len() implies gen_ok(#[trigger] table@[g].1@, ok) by {
            assert(ok(table@[g].0));
        }
    }
    let mut out: Vec<(K, Vec<Vec<(K, Vec<GameMove>)>>)> = Vec::new();
    let mut f: usize = 0;
    while f < table.len()
        invariant
            0 <= f <= table@.len(),
            r == reach@.to_set(),
            forall|g: int| 0 <= g < table@.len() ==> gen_ok(#[trigger] table@[g].1@, ok),
            table_keys(table@).no_duplicates(),
            table_keys(out@).no_duplicates(),
            forall|x: K| #[trigger] table_keys(out@).contains(x) ==> exists|g: int| 0 <= g < f && table@[g].0 == x,
            forall|e: int|
                0 <= e < out@.len() ==> exists|g: int|
                    0 <= g < table@.len() && table@[g].0 == (#[trigger] out@[e]).0 && reach@.contains(out@[e].0)
                        && out@[e].1@.len() == 7 && (forall|p: int|
                        0 <= p < 7 ==> list_view(#[trigger] out@[e].1@[p]@) == within(list_view(table@[g].1@[p]@), r))
                        && exists|p: int| 0 <= p < 7 && (#[trigger] out@[e].1@[p])@.len() > 0,
            forall|g: int|
                0 <= g < f && reach@.contains(#[trigger] table@[g].0) && (exists|p: int|
                    0 <= p < 7 && within(list_view(table@[g].1@[p]@), r).len() > 0) ==> table_keys(out@).contains(
                    table@[g].0,
                ),
            found_from(table@, seed0),
            parents_in(table@, reach@),
            found_from(out@, seed0),
        decreases table@.len() - f,
    {
        if contains_key(&reach, &table[f].0) {
            proof {
                assert(gen_ok(table@[f as int].1@, ok));
            }
            let (pruned, count) = prune_lists(&table[f].1, &reach);
            if count > 0 {
                let key = table[f].0.copy();
                let ghost ob = out@;
                proof {
                    assert(!table_keys(ob).contains(key)) by {
                        if table_keys(ob).contains(key) {
                            let g = choose|g: int| 0 <= g < f && table@[g].0 == key;
                            assert(table_keys(table@)[g] == table_keys(table@)[f as int]);
                        }
                    }
                }
                proof {
                    lemma_parent_kept(table@, ob, reach@, f as int, seed0, ok);
                    lemma_found_from_push(ob, (key, pruned), seed0);
                }
                out.push((key, pruned));
                proof {
                    assert(table_keys(out@) =~= table_keys(ob).push(key));
                    assert forall|x: K| #[trigger] table_keys(out@).contains(x) implies exists|g: int|
                        0 <= g < f + 1 && table@[g].0 == x by {
                        let j = choose|j: int| 0 <= j < out@.len() && table_keys(out@)[j] == x;
                        if j < ob.len() {
                            assert(table_keys(ob)[j] == x);
                            assert(table_keys(ob).contains(x));
                        }
                    }
                    assert forall|e: int|
                        0 <= e < out@.len() implies exists|g: int|
                            0 <= g < table@.len() && table@[g].0 == (#[trigger] out@[e]).0 && reach@.contains(out@[e].0)
                                && out@[e].1@.len() == 7 && (forall|p: int|
                                0 <= p < 7 ==> list_view(#[trigger] out@[e].1@[p]@) == within(
                                    list_view(table@[g].1@[p]@),
                                    r,
                                )) && exists|p: int| 0 <= p < 7 && (#[trigger] out@[e].1@[p])@.len() > 0 by {
                        if e < ob.len() {
                            assert(out@[e] == ob[e]);
                        } else {
                            assert(table@[f as int].0 == out@[e].0);
                            let p = choose|p: int| 0 <= p < 7 && (#[trigger] pruned@[p])@.len() > 0;
                            assert(out@[e].1@[p]@.len() > 0);
                        }
                    }
                    assert forall|g: int|
                        0 <= g < f + 1 && reach@.contains(#[trigger] table@[g].0) && (exists|p: int|
                            0 <= p < 7 && within(list_view(table@[g].1@[p]@), r).len() > 0) implies table_keys(
                        out@,
                    ).contains(table@[g].0) by {
                        if g < f {
                            assert(table_keys(ob).contains(table@[g].0));
                            let j = choose|j: int| 0 <= j < ob.len() && table_keys(ob)[j] == table@[g].0;
                            assert(table_keys(out@)[j] == table@[g].0);
                        } else {
                            assert(table_keys(out@)[ob.len() as int] == key);
                        }
                    }
                }
            } else {
                proof {
                    assert forall|g: int|
                        0 <= g < f + 1 && reach@.contains(#[trigger] table@[g].0) && (exists|p: int|
                            0 <= p < 7 && within(list_view(table@[g].1@[p]@), r).len() > 0) implies table_keys(
                        out@,
                    ).contains(table@[g].0) by {
                        if g == f {
                            let p = choose|p: int| 0 <= p < 7 && within(list_view(table@[g].1@[p]@), r).len() > 0;
                            assert(list_view(pruned@[p]@).len() > 0);
                        }
                    }
                }
            }
        }
        f += 1;
    }
    (out, Ghost(table@), Ghost(reach@), Ghost(rank))
}

/// What `within` keeps: children of `l` in `r`, as many as there are at
/// most, each key once when `l` has each once, and at least one when some
/// child of `l` lies in `r`.
#[verifier::spinoff_prover]
pub proof fn lemma_within<K>(l: Seq<(K, Seq<GameMove>)>, r: Set<K>)
    ensures
        within(l, r).len() <= l.len(),
        forall|i: int| 0 <= i < within(l, r).len() ==> r.contains(#[trigger] within(l, r)[i].0) && l.contains(
            within(l, r)[i],
        ),
        (forall|a: int, b: int| 0 <= a < b < l.len() ==> l[a].0 != l[b].0) ==> (forall|a: int, b: int|
            0 <= a < b < within(l, r).len() ==> #[trigger] within(l, r)[a].0 != #[trigger] within(l, r)[b].0),
        (exists|j: int| 0 <= j < l.len() && r.contains(#[trigger] l[j].0)) ==> within(l, r).len() > 0,
    decreases l.len(),
{
    if l.len() > 0 {
        let rest = l.drop_last();
        lemma_within(rest, r);
        let w = within(l, r);
        let wr = within(rest, r);
        assert forall|i: int| 0 <= i < w.len() implies r.contains(#[trigger] w[i].0) && l.contains(w[i]) by {
            if i < wr.len() {
                assert(w[i] == wr[i]);
                assert(0 <= i < within(rest, r).len());
                assert(r.contains(within(rest, r)[i].0));
                assert(rest.contains(wr[i]));
                let j = choose|j: int| 0 <= j < rest.len() && rest[j] == wr[i];
                assert(l[j] == rest[j]);
            } else {
                assert(w[i] == l.last());
                assert(l[l.len() - 1] == l.last());
            }
        }
        if forall|a: int, b: int| 0 <= a < b < l.len() ==> l[a].0 != l[b].0 {
            assert forall|a: int, b: int| 0 <= a < b < rest.len() implies rest[a].0 != rest[b].0 by {
                assert(rest[a] == l[a] && rest[b] == l[b]);
            }
            assert forall|a: int, b: int| 0 <= a < b < w.len() implies #[trigger] w[a].0 != #[trigger] w[b].0 by {
                if b < wr.len() {
                    assert(w[a] == wr[a] && w[b] == wr[b]);
                } else {
                    assert(w[a] == wr[a]);
                    assert(0 <= a < within(rest, r).len());
                    assert(r.contains(within(rest, r)[a].0));
                    assert(rest.contains(wr[a]));
                    let j = choose|j: int| 0 <= j < rest.len() && rest[j] == wr[a];
                    assert(l[j] == rest[j]);
                    assert(w[b] == l[l.len() - 1]);
                }
            }
        }
        if exists|j: int| 0 <= j < l.len() && r.contains(#[trigger] l[j].0) {
            let j = choose|j: int| 0 <= j < l.len() && r.contains(#[trigger] l[j].0);
            if j < rest.len() {
                assert(rest[j] == l[j]);
            }
        }
    }
}

/// Every key that `picks` keeps is the child of one of the lists.
pub proof fn lemma_picks_domain<K>(outcomes: Seq<Option<K>>, moves: Seq<Seq<GameMove>>, prefer: bool, n: nat, k: K)
    requires
        picks(outcomes, moves, prefer, n).contains_key(k),
    ensures
        exists|i: int| 0 <= i < n && outcomes[i] == Some(k),
    decreases n,
{
    if n > 0 {
        let prev = picks(outcomes, moves, prefer, (n - 1) as nat);
        if prev.contains_key(k) {
            lemma_picks_domain(outcomes, moves, prefer, (n - 1) as nat, k);
            let i = choose|i: int| 0 <= i < n - 1 && outcomes[i] == Some(k);
        } else {
            assert(outcomes[n - 1] == Some(k));
        }
    }
}

/// Every state of `table` but `seed` has a child of lower rank that is
/// `seed` or listed: following such children leads back to `seed`.
pub open spec fn ranked_back<K>(table: Seq<(K, Vec<Vec<(K, Vec<GameMove>)>>)>, seed: K, rank: Map<K, nat>) -> bool {
    forall|e: int|
        0 <= e < table.len() && table[e].0 != seed ==> exists|c: K|
            #[trigger] has_child(table[e].1@, c) && rank.contains_key(c) && rank.contains_key(table[e].0) && rank[c]
                < rank[table[e].0] && (c == seed || table_keys(table).contains(c))
}

/// From every state of `table` the listed children lead back to `seed`.
pub open spec fn leads_back_to<K>(table: Seq<(K, Vec<Vec<(K, Vec<GameMove>)>>)>, seed: K) -> bool {
    exists|rank: Map<K, nat>| ranked_back(table, seed, rank)
}

/// A state that leads back has a kept child, so it is kept itself.
proof fn lemma_kept_when_leading<K>(
    out: Seq<(K, Vec<Vec<(K, Vec<GameMove>)>>)>,
    table: Seq<(K, Vec<Vec<(K, Vec<GameMove>)>>)>,
    reach: Seq<K>,
    rank: Map<K, nat>,
    seed: K,
    ok: spec_fn(K) -> bool,
    c: K,
)
    requires
        forall|f: int| 0 <= f < table.len() ==> gen_ok(#[trigger] table[f].1@, ok),
        leads_back(table, reach, rank, seed),
        grown_table(out, table, reach),
        reach.contains(c),
        c != seed,
    ensures
        table_keys(out).contains(c),
{
    let (e3, y3) = choose|e3: int, y3: int|
        0 <= e3 < table.len() && table[e3].0 == c && 0 <= y3 < reach.len() && #[trigger] has_child(
            table[e3].1@,
            reach[y3],
        ) && rank.contains_key(reach[y3]) && rank.contains_key(c) && rank[reach[y3]] < rank[c];
    assert(reach.contains(reach[y3]));
    lemma_child_within(table[e3].1@, reach.to_set(), reach[y3]);
    assert(gen_ok(table[e3].1@, ok));
    let (p, j) = choose|p: int, j: int|
        0 <= p < table[e3].1@.len() && 0 <= j < within(list_view(table[e3].1@[p]@), reach.to_set()).len() && (#[trigger] within(
            list_view(table[e3].1@[p]@),
            reach.to_set(),
        )[j]).0 == reach[y3];
    assert(0 <= p < 7 && within(list_view(table[e3].1@[p]@), reach.to_set()).len() > 0);
    assert(reach.contains(table[e3].0));
}

/// A grown table leads back to its seed from every state, by the ranks
/// that the search back from the seed gave.
proof fn lemma_out_ranked<K>(
    out: Seq<(K, Vec<Vec<(K, Vec<GameMove>)>>)>,
    table: Seq<(K, Vec<Vec<(K, Vec<GameMove>)>>)>,
    reach: Seq<K>,
    rank: Map<K, nat>,
    seed: K,
    ok: spec_fn(K) -> bool,
)
    requires
        table_keys(table).no_duplicates(),
        forall|f: int| 0 <= f < table.len() ==> gen_ok(#[trigger] table[f].1@, ok),
        leads_back(table, reach, rank, seed),
        grown_table(out, table, reach),
    ensures
        ranked_back(out, seed, rank),
{
    let r = reach.to_set();
    assert forall|e: int| 0 <= e < out.len() && out[e].0 != seed implies exists|c: K|
        #[trigger] has_child(out[e].1@, c) && rank.contains_key(c) && rank.contains_key(out[e].0) && rank[c]
            < rank[out[e].0] && (c == seed || table_keys(out).contains(c)) by {
        let x = out[e].0;
        let f = choose|f: int|
            0 <= f < table.len() && table[f].0 == (#[trigger] out[e]).0 && reach.contains(out[e].0)
                && out[e].1@.len() == 7 && (forall|p: int|
                0 <= p < 7 ==> list_view(#[trigger] out[e].1@[p]@) == within(list_view(table[f].1@[p]@), r))
                && exists|p: int| 0 <= p < 7 && (#[trigger] out[e].1@[p])@.len() > 0;
        assert(reach.contains(x));
        let (e2, y) = choose|e2: int, y: int|
            0 <= e2 < table.len() && table[e2].0 == x && 0 <= y < reach.len() && #[trigger] has_child(
                table[e2].1@,
                reach[y],
            ) && rank.contains_key(reach[y]) && rank.contains_key(x) && rank[reach[y]] < rank[x];
        assert(table_keys(table)[e2] == table_keys(table)[f]);
        assert(e2 == f);
        let c = reach[y];
        assert(reach.contains(c));
        lemma_child_within(table[f].1@, r, c);
        let (p, j) = choose|p: int, j: int|
            0 <= p < table[f].1@.len() && 0 <= j < within(list_view(table[f].1@[p]@), r).len() && (#[trigger] within(
                list_view(table[f].1@[p]@),
                r,
            )[j]).0 == c;
        assert(gen_ok(table[f].1@, ok));
        let kept = out[e].1@[p]@;
        assert(list_view(kept) == within(list_view(table[f].1@[p]@), r));
        assert(list_view(kept)[j] == (kept[j].0, kept[j].1@));
        assert(has_child(out[e].1@, c));
        if c != seed {
            lemma_kept_when_leading(out, table, reach, rank, seed, ok, c);
        }
    }
}

/// What a grown table holds: seven lists for each state, of at most 240
/// children each, each child once, every child found by the generator for
/// that state with the same moves and meeting `ok`; and once the seed is
/// listed, every child is listed too.
proof fn lemma_grown<K>(
    out: Seq<(K, Vec<Vec<(K, Vec<GameMove>)>>)>,
    table: Seq<(K, Vec<Vec<(K, Vec<GameMove>)>>)>,
    reach: Seq<K>,
    rank: Map<K, nat>,
    seed: K,
    ok: spec_fn(K) -> bool,
)
    requires
        table_keys(table).no_duplicates(),
        forall|f: int| 0 <= f < table.len() ==> gen_ok(#[trigger] table[f].1@, ok),
        forall|f: int, c: K| 0 <= f < table.len() && #[trigger] has_child(table[f].1@, c) ==> table_keys(table).contains(c),
        reach.contains(seed),
        leads_back(table, reach, rank, seed),
        grown_table(out, table, reach),
    ensures
        table_keys(out).no_duplicates(),
        forall|e: int, p: int| 0 <= e < out.len() && 0 <= p < 7 ==> (#[trigger] out[e].1@[p])@.len() <= 240,
        forall|e: int| 0 <= e < out.len() ==> (#[trigger] out[e]).1@.len() == 7,
        forall|e: int, p: int, a: int, b: int|
            0 <= e < out.len() && 0 <= p < 7 && 0 <= a < b < out[e].1@[p]@.len() ==> #[trigger] out[e].1@[p]@[a].0
                != #[trigger] out[e].1@[p]@[b].0,
        forall|e: int, p: int, c: int|
            0 <= e < out.len() && 0 <= p < 7 && 0 <= c < out[e].1@[p]@.len() ==> ok(#[trigger] out[e].1@[p]@[c].0)
                && exists|f: int, j: int|
                0 <= f < table.len() && table[f].0 == out[e].0 && 0 <= j < table[f].1@[p]@.len() && table[f].1@[p]@[j].0
                    == out[e].1@[p]@[c].0 && table[f].1@[p]@[j].1@ == out[e].1@[p]@[c].1@,
        table_keys(out).contains(seed) ==> forall|e: int, p: int, c: int|
            0 <= e < out.len() && 0 <= p < 7 && 0 <= c < out[e].1@[p]@.len() ==> table_keys(out).contains(
                #[trigger] out[e].1@[p]@[c].0,
            ),
{
    let rs = reach.to_set();
    assert forall|e: int, p: int|
        0 <= e < out.len() && 0 <= p < 7 implies {
        &&& (#[trigger] out[e].1@[p])@.len() <= 240
        &&& out[e].1@.len() == 7
        &&& forall|a: int, b: int|
            0 <= a < b < out[e].1@[p]@.len() ==> #[trigger] out[e].1@[p]@[a].0 != #[trigger] out[e].1@[p]@[b].0
        &&& forall|c: int|
            0 <= c < out[e].1@[p]@.len() ==> ok(#[trigger] out[e].1@[p]@[c].0) && rs.contains(out[e].1@[p]@[c].0) && exists|f: int, j: int|
                0 <= f < table.len() && table[f].0 == out[e].0 && 0 <= j < table[f].1@[p]@.len() && table[f].1@[p]@[j].0
                    == out[e].1@[p]@[c].0 && table[f].1@[p]@[j].1@ == out[e].1@[p]@[c].1@
    } by {
        let f = choose|f: int|
            0 <= f < table.len() && table[f].0 == (#[trigger] out[e]).0 && reach.contains(out[e].0) && out[e].1@.len()
                == 7 && (forall|p: int|
                0 <= p < 7 ==> list_view(#[trigger] out[e].1@[p]@) == within(list_view(table[f].1@[p]@), reach.to_set()))
                && exists|p: int| 0 <= p < 7 && (#[trigger] out[e].1@[p])@.len() > 0;
        let src = list_view(table[f].1@[p]@);
        let mine = out[e].1@[p]@;
        assert(list_view(mine) == within(src, rs));
        lemma_within(src, rs);
        assert(gen_ok(table[f].1@, ok));
        assert forall|a: int, b: int| 0 <= a < b < src.len() implies src[a].0 != src[b].0 by {
            assert(table[f].1@[p]@[a].0 != table[f].1@[p]@[b].0);
        }
        assert forall|a: int, b: int| 0 <= a < b < mine.len() implies #[trigger] mine[a].0 != #[trigger] mine[b].0 by {
            assert(list_view(mine)[a].0 == mine[a].0);
            assert(list_view(mine)[b].0 == mine[b].0);
        }
        assert forall|c: int| 0 <= c < mine.len() implies ok(#[trigger] mine[c].0) && rs.contains(mine[c].0) && exists|f2: int, j: int|
            0 <= f2 < table.len() && table[f2].0 == out[e].0 && 0 <= j < table[f2].1@[p]@.len() && table[f2].1@[p]@[j].0
                == mine[c].0 && table[f2].1@[p]@[j].1@ == mine[c].1@ by {
            assert(list_view(mine)[c] == (mine[c].0, mine[c].1@));
            assert(rs.contains(within(src, rs)[c].0));
            assert(src.contains(within(src, rs)[c]));
            let j = choose|j: int| 0 <= j < src.len() && src[j] == within(src, rs)[c];
            assert(src[j] == (table[f].1@[p]@[j].0, table[f].1@[p]@[j].1@));
            assert(ok(table[f].1@[p]@[j].0));
        }
    }
    if table_keys(out).contains(seed) {
        assert forall|e: int, p: int, c: int|
            0 <= e < out.len() && 0 <= p < 7 && 0 <= c < out[e].1@[p]@.len() implies table_keys(out).contains(
            #[trigger] out[e].1@[p]@[c].0,
        ) by {
            let x = out[e].1@[p]@[c].0;
            assert(rs.contains(x));
            assert(reach.contains(x));
            if x != seed {
                let (g, y) = choose|g: int, y: int|
                    0 <= g < table.len() && table[g].0 == x && 0 <= y < reach.len() && #[trigger] has_child(
                        table[g].1@,
                        reach[y],
                    ) && rank.contains_key(reach[y]) && rank.contains_key(x) && rank[reach[y]] < rank[x];
                let (q, i) = choose|q: int, i: int|
                    0 <= q < table[g].1@.len() && 0 <= i < table[g].1@[q]@.len() && #[trigger] table[g].1@[q]@[i].0
                        == reach[y];
                assert(gen_ok(table[g].1@, ok));
                let src = list_view(table[g].1@[q]@);
                lemma_within(src, rs);
                assert(src[i].0 == reach[y]);
                assert(rs.contains(src[i].0));
                assert(table_keys(table)[g] == x);
            }
        }
    }
}

/// The center state the center table grows from: two cells filled at the
/// bottom left of the area, one above the other on the left.
pub const CENTER_SEED: u16 = 0x31;

/// A side state of the tables: heights of at most `LR_MAX_DIFF`, the lowest
/// of them 0.
pub open spec fn lr_ok(k: (i8, i8, i8)) -> bool {
    0 <= k.0 <= 4 && 0 <= k.1 <= 4 && 0 <= k.2 <= 4 && min3(k) == 0
}

proof fn lemma_lr_child_ok(state: (i8, i8, i8), left: bool, t: int, moves: Seq<PieceMove>)
    requires
        lr_child(state, left, t, moves) is Some,
    ensures
        lr_ok(lr_child(state, left, t, moves)->0),
{
    let m2 = cleared(dropped_matrix(lr_matrix(state, left), c4w_type_of(t), moves));
    crate::common::board::lemma_height_props(m2, lr_col(left), 24);
    crate::common::board::lemma_height_props(m2, lr_col(left) + 1, 24);
    crate::common::board::lemma_height_props(m2, lr_col(left) + 2, 24);
}

proof fn lemma_lr_lists_ok(
    k: (i8, i8, i8),
    left: bool,
    r: Seq<Vec<((i8, i8, i8), Vec<GameMove>)>>,
    ok: spec_fn((i8, i8, i8)) -> bool,
)
    requires
        forall|x: (i8, i8, i8)| #[trigger] ok(x) == lr_ok(x),
        r.len() == 7,
        forall|t: int| 0 <= t < 7 ==> lists_map(#[trigger] r[t]@, lr_picks(k, left, t)),
        forall|t: int| 0 <= t < 7 ==> (#[trigger] r[t])@.len() <= 240,
    ensures
        gen_ok(r, ok),
{
    assert forall|p: int, a: int, b: int| 0 <= p < 7 && 0 <= a < b < r[p]@.len() implies #[trigger] r[p]@[a].0
        != #[trigger] r[p]@[b].0 by {
        assert(lists_map(r[p]@, lr_picks(k, left, p)));
    }
    assert forall|p: int, i: int| 0 <= p < 7 && 0 <= i < r[p]@.len() implies ok(#[trigger] r[p]@[i].0) by {
        assert(lists_map(r[p]@, lr_picks(k, left, p)));
        let x = r[p]@[i].0;
        assert(lr_picks(k, left, p).contains_key(x));
        lemma_picks_domain(lr_outcomes(k, left, p), piece_game_moves(p), false, piece_moves_upto(p, 4).len(), x);
        let j = choose|j: int| 0 <= j < piece_moves_upto(p, 4).len() && lr_outcomes(k, left, p)[j] == Some(x);
        lemma_lr_child_ok(k, left, p, piece_moves_upto(p, 4)[j]);
    }
}

/// The children of the lists of a table state as the generator gave them:
/// each child of list `p` of `lists` is kept in `map(p)` with its moves.
pub open spec fn listed_in<K>(lists: Seq<Vec<(K, Vec<GameMove>)>>, map: spec_fn(int) -> Map<K, Seq<GameMove>>) -> bool {
    forall|p: int, c: int|
        0 <= p < 7 && 0 <= c < lists[p]@.len() ==> map(p).contains_key(#[trigger] lists[p]@[c].0) && map(p)[lists[p]@[c].0]
            == lists[p]@[c].1@
}

impl C4WTransitions {
    /// The transitions of the three areas, grown from `CENTER_SEED` and
    /// from flat side areas: every state that drops lead to from the seed
    /// and back to it, with the children that do too.  Each listed child
    /// carries the moves that its generator keeps for it; once the seeds
    /// are listed, every child is listed.
    pub fn new() -> (tr: Self)
        ensures
            tr.wf(),
            tr.children_at_most(240),
            tr.has_center(CENTER_SEED) && tr.has_lr(true, (0, 0, 0)) && tr.has_lr(false, (0, 0, 0)) ==> tr.closed(),
            found_from(tr.center@, CENTER_SEED),
            found_from(tr.left@, (0i8, 0i8, 0i8)),
            found_from(tr.right@, (0i8, 0i8, 0i8)),
            leads_back_to(tr.center@, CENTER_SEED),
            leads_back_to(tr.left@, (0i8, 0i8, 0i8)),
            leads_back_to(tr.right@, (0i8, 0i8, 0i8)),
            forall|k: int| 0 <= k < tr.center@.len() ==> listed_in(
                (#[trigger] tr.center@[k]).1@,
                |p: int| center_picks(tr.center@[k].0, p),
            ),
            forall|k: int| 0 <= k < tr.left@.len() ==> listed_in(
                (#[trigger] tr.left@[k]).1@,
                |p: int| lr_picks(tr.left@[k].0, true, p),
            ),
            forall|k: int| 0 <= k < tr.right@.len() ==> listed_in(
                (#[trigger] tr.right@[k]).1@,
                |p: int| lr_picks(tr.right@[k].0, false, p),
            ),
    {
        let ghost ok_c = |k: u16| true;
        let ghost ok_lr = |k: (i8, i8, i8)| lr_ok(k);
        let gen_c = |s: &u16| -> (r: Vec<Vec<(u16, Vec<GameMove>)>>)
            ensures
                r@.len() == 7,
                forall|t: int| 0 <= t < 7 ==> lists_map(#[trigger] r@[t]@, center_picks(*s, t)),
                forall|t: int| 0 <= t < 7 ==> (#[trigger] r@[t])@.len() <= 240,
            { C4WTransitions::center_gen_transitions(*s) };
        let gen_l = |s: &(i8, i8, i8)| -> (r: Vec<Vec<((i8, i8, i8), Vec<GameMove>)>>)
            requires
                lr_ok(*s),
            ensures
                r@.len() == 7,
                forall|t: int| 0 <= t < 7 ==> lists_map(#[trigger] r@[t]@, lr_picks(*s, true, t)),
                forall|t: int| 0 <= t < 7 ==> (#[trigger] r@[t])@.len() <= 240,
            { C4WTransitions::lr_gen_transitions(*s, true) };
        let gen_r = |s: &(i8, i8, i8)| -> (r: Vec<Vec<((i8, i8, i8), Vec<GameMove>)>>)
            requires
                lr_ok(*s),
            ensures
                r@.len() == 7,
                forall|t: int| 0 <= t < 7 ==> lists_map(#[trigger] r@[t]@, lr_picks(*s, false, t)),
                forall|t: int| 0 <= t < 7 ==> (#[trigger] r@[t])@.len() <= 240,
            { C4WTransitions::lr_gen_transitions(*s, false) };
        proof {
            assert forall|k: u16, r: Vec<Vec<(u16, Vec<GameMove>)>>| ok_c(k) && call_ensures(gen_c, (&k,), r) implies gen_ok(r@, ok_c) by {
                assert forall|p: int, a: int, b: int|
                    0 <= p < 7 && 0 <= a < b < r@[p]@.len() implies #[trigger] r@[p]@[a].0 != #[trigger] r@[p]@[b].0 by {
                    assert(lists_map(r@[p]@, center_picks(k, p)));
                }
            }
            assert forall|k: (i8, i8, i8), r: Vec<Vec<((i8, i8, i8), Vec<GameMove>)>>|
                ok_lr(k) && call_ensures(gen_l, (&k,), r) implies gen_ok(r@, ok_lr) by {
                lemma_lr_lists_ok(k, true, r@, ok_lr);
            }
            assert forall|k: (i8, i8, i8), r: Vec<Vec<((i8, i8, i8), Vec<GameMove>)>>|
                ok_lr(k) && call_ensures(gen_r, (&k,), r) implies gen_ok(r@, ok_lr) by {
                lemma_lr_lists_ok(k, false, r@, ok_lr);
            }
        }
        let (center, Ghost(tc), Ghost(rc), Ghost(kc)) = gen_transition_states(CENTER_SEED, gen_c, Ghost(ok_c));
        let (left, Ghost(tl), Ghost(rl), Ghost(kl)) = gen_transition_states((0i8, 0i8, 0i8), gen_l, Ghost(ok_lr));
        let (right, Ghost(tr_), Ghost(rr), Ghost(kr)) = gen_transition_states((0i8, 0i8, 0i8), gen_r, Ghost(ok_lr));
        proof {
            assert forall|f: int| 0 <= f < tc.len() implies gen_ok(#[trigger] tc[f].1@, ok_c) by {
                assert(ok_c(tc[f].0));
            }
            assert forall|f: int| 0 <= f < tl.len() implies gen_ok(#[trigger] tl[f].1@, ok_lr) by {
                assert(ok_lr(tl[f].0));
            }
            assert forall|f: int| 0 <= f < tr_.len() implies gen_ok(#[trigger] tr_[f].1@, ok_lr) by {
                assert(ok_lr(tr_[f].0));
            }
            lemma_grown(center@, tc, rc, kc, CENTER_SEED, ok_c);
            lemma_grown(left@, tl, rl, kl, (0i8, 0i8, 0i8), ok_lr);
            lemma_grown(right@, tr_, rr, kr, (0i8, 0i8, 0i8), ok_lr);
            lemma_out_ranked(center@, tc, rc, kc, CENTER_SEED, ok_c);
            lemma_out_ranked(left@, tl, rl, kl, (0i8, 0i8, 0i8), ok_lr);
            lemma_out_ranked(right@, tr_, rr, kr, (0i8, 0i8, 0i8), ok_lr);
            assert(leads_back_to(center@, CENTER_SEED));
            assert(leads_back_to(left@, (0i8, 0i8, 0i8)));
            assert(leads_back_to(right@, (0i8, 0i8, 0i8)));
        }
        let tr = C4WTransitions { center, left, right };
        proof {
            assert forall|a: int, b: int| 0 <= a < b < tr.center@.len() implies #[trigger] tr.center@[a].0
                != #[trigger] tr.center@[b].0 by {
                assert(table_keys(center@)[a] == tr.center@[a].0 && table_keys(center@)[b] == tr.center@[b].0);
            }
            assert forall|a: int, b: int| 0 <= a < b < tr.left@.len() implies #[trigger] tr.left@[a].0
                != #[trigger] tr.left@[b].0 by {
                assert(table_keys(left@)[a] == tr.left@[a].0 && table_keys(left@)[b] == tr.left@[b].0);
            }
            assert forall|a: int, b: int| 0 <= a < b < tr.right@.len() implies #[trigger] tr.right@[a].0
                != #[trigger] tr.right@[b].0 by {
                assert(table_keys(right@)[a] == tr.right@[a].0 && table_keys(right@)[b] == tr.right@[b].0);
            }
            assert forall|k: int| 0 <= k < tr.left@.len() implies (#[trigger] tr.left@[k]).1@.len() == 7 && small_lr(tr.left@[k].0) by {
                let f = choose|f: int|
                    0 <= f < tl.len() && tl[f].0 == (#[trigger] left@[k]).0 && rl.contains(left@[k].0)
                        && left@[k].1@.len() == 7 && (forall|p: int|
                        0 <= p < 7 ==> list_view(#[trigger] left@[k].1@[p]@) == within(list_view(tl[f].1@[p]@), rl.to_set()))
                        && exists|p: int| 0 <= p < 7 && (#[trigger] left@[k].1@[p])@.len() > 0;
                assert(ok_lr(tl[f].0));
            }
            assert forall|k: int| 0 <= k < tr.right@.len() implies (#[trigger] tr.right@[k]).1@.len() == 7 && small_lr(tr.right@[k].0) by {
                let f = choose|f: int|
                    0 <= f < tr_.len() && tr_[f].0 == (#[trigger] right@[k]).0 && rr.contains(right@[k].0)
                        && right@[k].1@.len() == 7 && (forall|p: int|
                        0 <= p < 7 ==> list_view(#[trigger] right@[k].1@[p]@) == within(list_view(tr_[f].1@[p]@), rr.to_set()))
                        && exists|p: int| 0 <= p < 7 && (#[trigger] right@[k].1@[p])@.len() > 0;
                assert(ok_lr(tr_[f].0));
            }
            assert forall|k: int, p: int, c: int|
                0 <= k < tr.left@.len() && 0 <= p < 7 && 0 <= c < tr.left@[k].1@[p]@.len() implies small_lr(
                #[trigger] tr.left@[k].1@[p]@[c].0,
            ) && min3(tr.left@[k].1@[p]@[c].0) == 0 by {
                assert(ok_lr(left@[k].1@[p]@[c].0));
            }
            assert forall|k: int, p: int, c: int|
                0 <= k < tr.right@.len() && 0 <= p < 7 && 0 <= c < tr.right@[k].1@[p]@.len() implies small_lr(
                #[trigger] tr.right@[k].1@[p]@[c].0,
            ) && min3(tr.right@[k].1@[p]@[c].0) == 0 by {
                assert(ok_lr(right@[k].1@[p]@[c].0));
            }
            assert(tr.wf());
            assert(tr.children_at_most(240));
            if tr.has_center(CENTER_SEED) && tr.has_lr(true, (0, 0, 0)) && tr.has_lr(false, (0, 0, 0)) {
                let a = choose|k: int| 0 <= k < tr.center@.len() && #[trigger] tr.center@[k].0 == CENTER_SEED;
                assert(table_keys(center@)[a] == CENTER_SEED);
                let b = choose|k: int| 0 <= k < tr.lr_table(true).len() && #[trigger] tr.lr_table(true)[k].0 == (0i8, 0i8, 0i8);
                assert(table_keys(left@)[b] == (0i8, 0i8, 0i8));
                let c = choose|k: int| 0 <= k < tr.lr_table(false).len() && #[trigger] tr.lr_table(false)[k].0 == (0i8, 0i8, 0i8);
                assert(table_keys(right@)[c] == (0i8, 0i8, 0i8));
                assert forall|k: int, p: int, c: int|
                    0 <= k < tr.center@.len() && 0 <= p < 7 && 0 <= c < tr.center@[k].1@[p]@.len() implies tr.has_center(
                    #[trigger] tr.center@[k].1@[p]@[c].0,
                ) by {
                    assert(table_keys(center@).contains(center@[k].1@[p]@[c].0));
                    let j = choose|j: int| 0 <= j < center@.len() && table_keys(center@)[j] == center@[k].1@[p]@[c].0;
                    assert(tr.center@[j].0 == center@[k].1@[p]@[c].0);
                }
                assert forall|k: int, p: int, c: int|
                    0 <= k < tr.left@.len() && 0 <= p < 7 && 0 <= c < tr.left@[k].1@[p]@.len() implies min3(
                    #[trigger] tr.left@[k].1@[p]@[c].0,
                ) == 0 && tr.has_lr(true, tr.left@[k].1@[p]@[c].0) by {
                    assert(ok_lr(left@[k].1@[p]@[c].0));
                    assert(table_keys(left@).contains(left@[k].1@[p]@[c].0));
                    let j = choose|j: int| 0 <= j < left@.len() && table_keys(left@)[j] == left@[k].1@[p]@[c].0;
                    assert(tr.lr_table(true)[j].0 == left@[k].1@[p]@[c].0);
                }
                assert forall|k: int, p: int, c: int|
                    0 <= k < tr.right@.len() && 0 <= p < 7 && 0 <= c < tr.right@[k].1@[p]@.len() implies min3(
                    #[trigger] tr.right@[k].1@[p]@[c].0,
                ) == 0 && tr.has_lr(false, tr.right@[k].1@[p]@[c].0) by {
                    assert(ok_lr(right@[k].1@[p]@[c].0));
                    assert(table_keys(right@).contains(right@[k].1@[p]@[c].0));
                    let j = choose|j: int| 0 <= j < right@.len() && table_keys(right@)[j] == right@[k].1@[p]@[c].0;
                    assert(tr.lr_table(false)[j].0 == right@[k].1@[p]@[c].0);
                }
            }
            assert forall|k: int| 0 <= k < tr.center@.len() implies listed_in(
                (#[trigger] tr.center@[k]).1@,
                |p: int| center_picks(tr.center@[k].0, p),
            ) by {
                assert forall|p: int, c: int| 0 <= p < 7 && 0 <= c < center@[k].1@[p]@.len() implies center_picks(
                    center@[k].0,
                    p,
                ).contains_key(#[trigger] center@[k].1@[p]@[c].0) && center_picks(center@[k].0, p)[center@[k].1@[p]@[c].0]
                    == center@[k].1@[p]@[c].1@ by {
                    let (f, j) = choose|f: int, j: int|
                        0 <= f < tc.len() && tc[f].0 == center@[k].0 && 0 <= j < tc[f].1@[p]@.len() && tc[f].1@[p]@[j].0
                            == center@[k].1@[p]@[c].0 && tc[f].1@[p]@[j].1@ == center@[k].1@[p]@[c].1@;
                    assert(call_ensures(gen_c, (&tc[f].0,), tc[f].1));
                    assert(lists_map(tc[f].1@[p]@, center_picks(tc[f].0, p)));
                }
            }
            assert forall|k: int| 0 <= k < tr.left@.len() implies listed_in(
                (#[trigger] tr.left@[k]).1@,
                |p: int| lr_picks(tr.left@[k].0, true, p),
            ) by {
                assert forall|p: int, c: int| 0 <= p < 7 && 0 <= c < left@[k].1@[p]@.len() implies lr_picks(
                    left@[k].0,
                    true,
                    p,
                ).contains_key(#[trigger] left@[k].1@[p]@[c].0) && lr_picks(left@[k].0, true, p)[left@[k].1@[p]@[c].0]
                    == left@[k].1@[p]@[c].1@ by {
                    let (f, j) = choose|f: int, j: int|
                        0 <= f < tl.len() && tl[f].0 == left@[k].0 && 0 <= j < tl[f].1@[p]@.len() && tl[f].1@[p]@[j].0
                            == left@[k].1@[p]@[c].0 && tl[f].1@[p]@[j].1@ == left@[k].1@[p]@[c].1@;
                    assert(call_ensures(gen_l, (&tl[f].0,), tl[f].1));
                    assert(lists_map(tl[f].1@[p]@, lr_picks(tl[f].0, true, p)));
                }
            }
            assert forall|k: int| 0 <= k < tr.right@.len() implies listed_in(
                (#[trigger] tr.right@[k]).1@,
                |p: int| lr_picks(tr.right@[k].0, false, p),
            ) by {
                assert forall|p: int, c: int| 0 <= p < 7 && 0 <= c < right@[k].1@[p]@.len() implies lr_picks(
                    right@[k].0,
                    false,
                    p,
                ).contains_key(#[trigger] right@[k].1@[p]@[c].0) && lr_picks(right@[k].0, false, p)[right@[k].1@[p]@[c].0]
                    == right@[k].1@[p]@[c].1@ by {
                    let (f, j) = choose|f: int, j: int|
                        0 <= f < tr_.len() && tr_[f].0 == right@[k].0 && 0 <= j < tr_[f].1@[p]@.len() && tr_[f].1@[p]@[j].0
                            == right@[k].1@[p]@[c].0 && tr_[f].1@[p]@[j].1@ == right@[k].1@[p]@[c].1@;
                    assert(call_ensures(gen_r, (&tr_[f].0,), tr_[f].1));
                    assert(lists_map(tr_[f].1@[p]@, lr_picks(tr_[f].0, false, p)));
                }
            }
        }
        tr
    }
}

} // verus!

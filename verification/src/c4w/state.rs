//! The bot's abstract game: the heights of the left and right areas, the
//! cells of the center area, the queue and the held piece.
use vstd::prelude::*;
use crate::c4w::consts::{LEFT_COL, LR_MAX_HEIGHT, LR_WIDTH, RIGHT_COL};
use crate::c4w::computed::{C4WTransitions, center_bits_match, small_lr};
use crate::c4w::piece::PieceType;
use crate::common::board::cell;
use crate::common::game::{Game, GameMove};
use crate::common::piece::{piece_type_of, spawn_piece, step_down};
use crate::bits::has_bit;
use vstd::std_specs::vecdeque::VecDequeAdditionalSpecFns;

verus! {

/// Why a game has no state of the bot.
pub enum C4WConstructErr {
    HoldIsNone,
    InvalidBoard,
}

/// A move that cannot be made: no piece is left after the current one.
#[derive(Debug)]
pub struct C4WMoveErr;

/// A change of one area: the new heights of the left or right area, or the
/// new cells of the center area.
#[derive(Debug, Clone, Copy)]
pub enum C4WStateChange {
    Left((i8, i8, i8)),
    Center(u16),
    Right((i8, i8, i8)),
}

impl C4WStateChange {
    /// The change clears a line of the center area.
    pub fn is_downstack(&self) -> (b: bool)
        ensures
            b == (*self is Center),
    {
        matches!(self, C4WStateChange::Center(_))
    }

    /// The change builds up a side area.
    pub fn is_upstack(&self) -> (b: bool)
        ensures
            b == !(*self is Center),
    {
        !self.is_downstack()
    }
}

/// A move of the bot: the change it makes, and whether the held piece is
/// played.
pub struct C4WMoveOptions {
    pub change: C4WStateChange,
    pub hold: bool,
}

/// What is needed to take a move back: the area as it was, and whether the
/// held piece was played.
pub struct C4WUndoInfo {
    pub change: C4WStateChange,
    pub hold: bool,
}

/// The bot's abstract game.
pub struct C4WState {
    pub left: (i8, i8, i8),
    pub center: u16,
    pub right: (i8, i8, i8),
    pub queue_ptr: usize,
    pub queue_pieces: Vec<PieceType>,
    pub hold_piece: PieceType,
}

/// The areas and the pointer of `s1` are those of `s0`, but for the area
/// `change` sets.
pub open spec fn areas_changed(s0: C4WState, s1: C4WState, change: C4WStateChange) -> bool {
    match change {
        C4WStateChange::Left(v) => s1.left == v && s1.center == s0.center && s1.right == s0.right,
        C4WStateChange::Center(v) => s1.left == s0.left && s1.center == v && s1.right == s0.right,
        C4WStateChange::Right(v) => s1.left == s0.left && s1.center == s0.center && s1.right == v,
    }
}

/// The area `change` sets, as it is in `s`.
pub open spec fn area_of(s: C4WState, change: C4WStateChange) -> C4WStateChange {
    match change {
        C4WStateChange::Left(_) => C4WStateChange::Left(s.left),
        C4WStateChange::Center(_) => C4WStateChange::Center(s.center),
        C4WStateChange::Right(_) => C4WStateChange::Right(s.right),
    }
}

/// The queue and held piece of `s1` are those of `s0`, with the held piece
/// swapped with the piece at `ptr` when `hold` is set.
pub open spec fn pieces_after(s0: C4WState, s1: C4WState, ptr: int, hold: bool) -> bool {
    if hold {
        s1.hold_piece == s0.queue_pieces@[ptr] && s1.queue_pieces@ == s0.queue_pieces@.update(ptr, s0.hold_piece)
    } else {
        s1.hold_piece == s0.hold_piece && s1.queue_pieces@ == s0.queue_pieces@
    }
}

/// `s1` is `s0` after the move `m`, whose take-back information is `u`.
pub open spec fn move_made(s0: C4WState, s1: C4WState, m: C4WMoveOptions, u: C4WUndoInfo) -> bool {
    &&& u.hold == m.hold
    &&& u.change == area_of(s0, m.change)
    &&& areas_changed(s0, s1, m.change)
    &&& s1.queue_ptr == s0.queue_ptr + 1
    &&& pieces_after(s0, s1, s0.queue_ptr as int, m.hold)
}

/// `s1` is `s0` after taking back a move with `u`.
pub open spec fn move_undone(s0: C4WState, s1: C4WState, u: C4WUndoInfo) -> bool {
    &&& areas_changed(s0, s1, u.change)
    &&& s1.queue_ptr == s0.queue_ptr - 1
    &&& pieces_after(s0, s1, s0.queue_ptr - 1, u.hold)
}

impl C4WState {
    /// The pointer designates a piece of the queue.
    pub open spec fn wf(&self) -> bool {
        self.queue_ptr < self.queue_pieces@.len()
    }

    /// Plays the current piece, or the held one, making the given change.
    /// Refused, with nothing changed, when no piece follows the current one.
    pub fn make_move(&mut self, c4w_move: &C4WMoveOptions) -> (res: Result<C4WUndoInfo, C4WMoveErr>)
        requires
            old(self).wf(),
        ensures
            old(self).queue_ptr >= old(self).queue_pieces@.len() - 1 <==> res is Err,
            res is Err ==> final(self).left == old(self).left && final(self).center == old(self).center
                && final(self).right == old(self).right && final(self).queue_ptr == old(self).queue_ptr
                && final(self).hold_piece == old(self).hold_piece && final(self).queue_pieces@ == old(
                self,
            ).queue_pieces@,
            res matches Ok(u) ==> move_made(*old(self), *final(self), *c4w_move, u),
            final(self).wf(),
    {
        if self.queue_ptr >= self.queue_pieces.len() - 1 {
            return Err(C4WMoveErr);
        }
        let undo_hold = c4w_move.hold;
        if c4w_move.hold {
            self.swap_hold();
        }
        self.queue_ptr += 1;
        let old_state = match c4w_move.change {
            C4WStateChange::Left(new_state) => {
                let old_state = C4WStateChange::Left(self.left);
                self.left = new_state;
                old_state
            },
            C4WStateChange::Center(new_state) => {
                let old_state = C4WStateChange::Center(self.center);
                self.center = new_state;
                old_state
            },
            C4WStateChange::Right(new_state) => {
                let old_state = C4WStateChange::Right(self.right);
                self.right = new_state;
                old_state
            },
        };
        Ok(C4WUndoInfo { hold: undo_hold, change: old_state })
    }

    /// Takes a move back.
    pub fn undo_move(&mut self, undo_info: &C4WUndoInfo)
        requires
            1 <= old(self).queue_ptr <= old(self).queue_pieces@.len(),
        ensures
            move_undone(*old(self), *final(self), *undo_info),
            final(self).wf(),
    {
        match undo_info.change {
            C4WStateChange::Left(new_state) => self.left = new_state,
            C4WStateChange::Center(new_state) => self.center = new_state,
            C4WStateChange::Right(new_state) => self.right = new_state,
        }
        self.queue_ptr -= 1;
        if undo_info.hold {
            self.swap_hold();
        }
    }

    fn swap_hold(&mut self)
        requires
            old(self).wf(),
        ensures
            final(self).hold_piece == old(self).queue_pieces@[old(self).queue_ptr as int],
            final(self).queue_pieces@ == old(self).queue_pieces@.update(
                old(self).queue_ptr as int,
                old(self).hold_piece,
            ),
            final(self).left == old(self).left,
            final(self).center == old(self).center,
            final(self).right == old(self).right,
            final(self).queue_ptr == old(self).queue_ptr,
    {
        let tmp = self.queue_pieces[self.queue_ptr];
        self.queue_pieces.set(self.queue_ptr, self.hold_piece);
        self.hold_piece = tmp;
    }

    /// The current piece.
    pub fn get_current_piece(&self) -> (p: PieceType)
        requires
            self.wf(),
        ensures
            p == self.queue_pieces@[self.queue_ptr as int],
    {
        self.queue_pieces[self.queue_ptr]
    }

    /// The held piece.
    pub fn get_hold_piece(&self) -> (p: PieceType)
        ensures
            p == self.hold_piece,
    {
        self.hold_piece
    }
}

/// Taking back a move with the information it returned gives back the state
/// as it was before the move.
pub proof fn lemma_undo_move_restores(
    s0: C4WState,
    s1: C4WState,
    s2: C4WState,
    m: C4WMoveOptions,
    u: C4WUndoInfo,
)
    requires
        s0.wf(),
        move_made(s0, s1, m, u),
        move_undone(s1, s2, u),
    ensures
        s2.left == s0.left,
        s2.center == s0.center,
        s2.right == s0.right,
        s2.queue_ptr == s0.queue_ptr,
        s2.hold_piece == s0.hold_piece,
        s2.queue_pieces@ == s0.queue_pieces@,
{
    if m.hold {
        assert(s2.queue_pieces@ =~= s0.queue_pieces@);
    }
}

/// The heights of a side area less their lowest, and that lowest.
pub fn trim_lr(state: (i8, i8, i8)) -> (res: ((i8, i8, i8), i8))
    requires
        -127 <= state.0 - state.1 <= 127,
        -127 <= state.1 - state.2 <= 127,
        -127 <= state.0 - state.2 <= 127,
    ensures
        res.1 <= state.0 && res.1 <= state.1 && res.1 <= state.2,
        res.1 == state.0 || res.1 == state.1 || res.1 == state.2,
        res.0.0 == state.0 - res.1,
        res.0.1 == state.1 - res.1,
        res.0.2 == state.2 - res.1,
{
    let m12 = if state.1 < state.2 {
        state.1
    } else {
        state.2
    };
    let height = if state.0 < m12 {
        state.0
    } else {
        m12
    };
    ((state.0 - height, state.1 - height, state.2 - height), height)
}

/// The heights of a side area raised by `height`.
pub fn inflate_lr(state: (i8, i8, i8), height: i8) -> (res: (i8, i8, i8))
    requires
        i8::MIN <= state.0 + height <= i8::MAX,
        i8::MIN <= state.1 + height <= i8::MAX,
        i8::MIN <= state.2 + height <= i8::MAX,
    ensures
        res.0 == state.0 + height,
        res.1 == state.1 + height,
        res.2 == state.2 + height,
{
    (state.0 + height, state.1 + height, state.2 + height)
}

/// The heights of a side area raised by `height` all stay under the limit.
pub fn is_lr_valid(state: (i8, i8, i8), height: i8) -> (b: bool)
    requires
        i8::MIN <= state.0 + height <= i8::MAX,
        i8::MIN <= state.1 + height <= i8::MAX,
        i8::MIN <= state.2 + height <= i8::MAX,
    ensures
        b == (state.0 + height < LR_MAX_HEIGHT && state.1 + height < LR_MAX_HEIGHT && state.2 + height
            < LR_MAX_HEIGHT),
{
    state.0 + height < LR_MAX_HEIGHT as i8 && state.1 + height < LR_MAX_HEIGHT as i8 && state.2 + height
        < LR_MAX_HEIGHT as i8
}


/// The lowest of three heights.
pub open spec fn min3(s: (i8, i8, i8)) -> int {
    if s.0 <= s.1 && s.0 <= s.2 {
        s.0 as int
    } else if s.1 <= s.2 {
        s.1 as int
    } else {
        s.2 as int
    }
}

/// Three heights less their lowest.
pub open spec fn trimmed(s: (i8, i8, i8)) -> (i8, i8, i8) {
    ((s.0 - min3(s)) as i8, (s.1 - min3(s)) as i8, (s.2 - min3(s)) as i8)
}

/// The change of the left area, or of the right one, to `s`.
pub open spec fn lr_change(left: bool, s: (i8, i8, i8)) -> C4WStateChange {
    if left {
        C4WStateChange::Left(s)
    } else {
        C4WStateChange::Right(s)
    }
}

/// The moves to the given center children.
pub open spec fn center_options(children: Seq<(u16, Vec<GameMove>)>, hold: bool) -> Seq<C4WMoveOptions> {
    Seq::new(children.len(), |k: int| C4WMoveOptions { change: C4WStateChange::Center(children[k].0), hold })
}

/// The moves to the given side children, raised by `h`, that keep every
/// height under the limit.
pub open spec fn lr_options(children: Seq<((i8, i8, i8), Vec<GameMove>)>, h: int, left: bool, hold: bool) -> Seq<
    C4WMoveOptions,
>
    decreases children.len(),
{
    if children.len() == 0 {
        Seq::empty()
    } else {
        let rest = lr_options(children.drop_last(), h, left, hold);
        let c = children.last().0;
        if c.0 + h < LR_MAX_HEIGHT && c.1 + h < LR_MAX_HEIGHT && c.2 + h < LR_MAX_HEIGHT {
            rest.push(
                C4WMoveOptions {
                    change: lr_change(left, ((c.0 + h) as i8, (c.1 + h) as i8, (c.2 + h) as i8)),
                    hold,
                },
            )
        } else {
            rest
        }
    }
}

/// Every move the bot may make from state `s`: to each child of its center
/// state, then of its left and of its right state (whose heights stay under
/// the limit), for the current piece and then for the held one.
pub open spec fn state_moves(tr: C4WTransitions, s: C4WState) -> Seq<C4WMoveOptions> {
    let cur = s.queue_pieces@[s.queue_ptr as int].index();
    let hold = s.hold_piece.index();
    let ce = tr.center_children(s.center);
    let le = tr.lr_children(true, trimmed(s.left));
    let re = tr.lr_children(false, trimmed(s.right));
    center_options(ce[cur]@, false) + center_options(ce[hold]@, true) + lr_options(
        le[cur]@,
        min3(s.left),
        true,
        false,
    ) + lr_options(le[hold]@, min3(s.left), true, true) + lr_options(re[cur]@, min3(s.right), false, false)
        + lr_options(re[hold]@, min3(s.right), false, true)
}

/// After move `m`, the bot's state is again one whose moves it can list.
pub open spec fn move_ok(tr: C4WTransitions, m: C4WMoveOptions) -> bool {
    match m.change {
        C4WStateChange::Center(c) => tr.has_center(c),
        C4WStateChange::Left(v) => small_lr(v) && tr.has_lr(true, trimmed(v)),
        C4WStateChange::Right(v) => small_lr(v) && tr.has_lr(false, trimmed(v)),
    }
}

proof fn lemma_center_options_ok(tr: C4WTransitions, children: Seq<(u16, Vec<GameMove>)>, hold: bool)
    requires
        forall|c: int| 0 <= c < children.len() ==> tr.has_center(#[trigger] children[c].0),
    ensures
        forall|i: int| 0 <= i < center_options(children, hold).len() ==> move_ok(tr, #[trigger] center_options(children, hold)[i]),
        center_options(children, hold).len() == children.len(),
{
    assert forall|i: int| 0 <= i < center_options(children, hold).len() implies move_ok(tr, #[trigger] center_options(children, hold)[i]) by {
        assert(tr.has_center(children[i].0));
    }
}

proof fn lemma_lr_options_ok(
    tr: C4WTransitions,
    children: Seq<((i8, i8, i8), Vec<GameMove>)>,
    h: int,
    left: bool,
    hold: bool,
)
    requires
        0 <= h < 64,
        forall|c: int|
            0 <= c < children.len() ==> small_lr(#[trigger] children[c].0) && min3(children[c].0) == 0 && tr.has_lr(
                left,
                children[c].0,
            ),
    ensures
        forall|i: int| 0 <= i < lr_options(children, h, left, hold).len() ==> move_ok(tr, #[trigger] lr_options(children, h, left, hold)[i]),
        lr_options(children, h, left, hold).len() <= children.len(),
    decreases children.len(),
{
    if children.len() > 0 {
        let rest = children.drop_last();
        assert forall|c: int|
            0 <= c < rest.len() implies small_lr(#[trigger] rest[c].0) && min3(rest[c].0) == 0 && tr.has_lr(left, rest[c].0) by {
            assert(rest[c] == children[c]);
        }
        lemma_lr_options_ok(tr, rest, h, left, hold);
        let c = children.last().0;
        assert(small_lr(children[children.len() - 1].0));
        let v = ((c.0 + h) as i8, (c.1 + h) as i8, (c.2 + h) as i8);
        if c.0 + h < LR_MAX_HEIGHT && c.1 + h < LR_MAX_HEIGHT && c.2 + h < LR_MAX_HEIGHT {
            assert(min3(v) == h);
            assert(trimmed(v) == c);
        }
    }
}

/// The moves of a state whose areas are listed lead to states whose areas
/// are listed, and there are at most six lists of them.
pub proof fn lemma_state_moves_ok(tr: C4WTransitions, s: C4WState, b: nat)
    requires
        s.wf(),
        tr.wf(),
        tr.closed(),
        tr.children_at_most(b),
        small_lr(s.left),
        small_lr(s.right),
        tr.has_center(s.center),
        tr.has_lr(true, trimmed(s.left)),
        tr.has_lr(false, trimmed(s.right)),
    ensures
        forall|i: int| 0 <= i < state_moves(tr, s).len() ==> move_ok(tr, #[trigger] state_moves(tr, s)[i]),
        state_moves(tr, s).len() <= 6 * b,
{
    let cur = s.queue_pieces@[s.queue_ptr as int].index();
    let hold = s.hold_piece.index();
    let kc = choose|k: int| 0 <= k < tr.center@.len() && #[trigger] tr.center@[k].0 == s.center;
    let kl = choose|k: int| 0 <= k < tr.lr_table(true).len() && #[trigger] tr.lr_table(true)[k].0 == trimmed(s.left);
    let kr = choose|k: int| 0 <= k < tr.lr_table(false).len() && #[trigger] tr.lr_table(false)[k].0 == trimmed(s.right);
    let ce = tr.center_children(s.center);
    let le = tr.lr_children(true, trimmed(s.left));
    let re = tr.lr_children(false, trimmed(s.right));
    assert(ce == tr.center@[kc].1@);
    assert(le == tr.left@[kl].1@);
    assert(re == tr.right@[kr].1@);
    assert(tr.center@[kc].1@.len() == 7);
    assert(tr.left@[kl].1@.len() == 7);
    assert(tr.right@[kr].1@.len() == 7);
    assert(min3(s.left) >= 0 && min3(s.left) < 64);
    assert(min3(s.right) >= 0 && min3(s.right) < 64);
    assert forall|p: int| 0 <= p < 7 implies (forall|c: int| 0 <= c < (#[trigger] ce[p])@.len() ==> tr.has_center(#[trigger] ce[p]@[c].0)) by {
        assert forall|c: int| 0 <= c < ce[p]@.len() implies tr.has_center(#[trigger] ce[p]@[c].0) by {
            assert(tr.has_center(tr.center@[kc].1@[p]@[c].0));
        }
    }
    assert forall|p: int| 0 <= p < 7 implies (forall|c: int| 0 <= c < (#[trigger] le[p])@.len() ==> small_lr(#[trigger] le[p]@[c].0) && min3(le[p]@[c].0) == 0 && tr.has_lr(true, le[p]@[c].0)) by {
        assert forall|c: int| 0 <= c < le[p]@.len() implies small_lr(#[trigger] le[p]@[c].0) && min3(le[p]@[c].0) == 0 && tr.has_lr(true, le[p]@[c].0) by {
            assert(small_lr(tr.left@[kl].1@[p]@[c].0));
            assert(min3(tr.left@[kl].1@[p]@[c].0) == 0);
        }
    }
    assert forall|p: int| 0 <= p < 7 implies (forall|c: int| 0 <= c < (#[trigger] re[p])@.len() ==> small_lr(#[trigger] re[p]@[c].0) && min3(re[p]@[c].0) == 0 && tr.has_lr(false, re[p]@[c].0)) by {
        assert forall|c: int| 0 <= c < re[p]@.len() implies small_lr(#[trigger] re[p]@[c].0) && min3(re[p]@[c].0) == 0 && tr.has_lr(false, re[p]@[c].0) by {
            assert(small_lr(tr.right@[kr].1@[p]@[c].0));
            assert(min3(tr.right@[kr].1@[p]@[c].0) == 0);
        }
    }
    lemma_center_options_ok(tr, ce[cur]@, false);
    lemma_center_options_ok(tr, ce[hold]@, true);
    lemma_lr_options_ok(tr, le[cur]@, min3(s.left), true, false);
    lemma_lr_options_ok(tr, le[hold]@, min3(s.left), true, true);
    lemma_lr_options_ok(tr, re[cur]@, min3(s.right), false, false);
    lemma_lr_options_ok(tr, re[hold]@, min3(s.right), false, true);
    assert(ce[cur]@.len() <= b && ce[hold]@.len() <= b);
    assert(le[cur]@.len() <= b && le[hold]@.len() <= b);
    assert(re[cur]@.len() <= b && re[hold]@.len() <= b);
    let a1 = center_options(ce[cur]@, false);
    let a2 = center_options(ce[hold]@, true);
    let a3 = lr_options(le[cur]@, min3(s.left), true, false);
    let a4 = lr_options(le[hold]@, min3(s.left), true, true);
    let a5 = lr_options(re[cur]@, min3(s.right), false, false);
    let a6 = lr_options(re[hold]@, min3(s.right), false, true);
    let all = state_moves(tr, s);
    assert(all == a1 + a2 + a3 + a4 + a5 + a6);
    assert forall|i: int| 0 <= i < all.len() implies move_ok(tr, #[trigger] all[i]) by {
        let n1 = a1.len() as int;
        let n2 = n1 + a2.len();
        let n3 = n2 + a3.len();
        let n4 = n3 + a4.len();
        let n5 = n4 + a5.len();
        if i < n1 {
            assert(all[i] == a1[i]);
        } else if i < n2 {
            assert(all[i] == a2[i - n1]);
        } else if i < n3 {
            assert(all[i] == a3[i - n2]);
        } else if i < n4 {
            assert(all[i] == a4[i - n3]);
        } else if i < n5 {
            assert(all[i] == a5[i - n4]);
        } else {
            assert(all[i] == a6[i - n5]);
        }
    }
}

/// The moves of the child with key `key` among `children`.
pub open spec fn child_moves<K>(children: Seq<(K, Vec<GameMove>)>, key: K) -> Seq<GameMove> {
    children[choose|k: int| 0 <= k < children.len() && #[trigger] children[k].0 == key].1@
}

/// The index of the piece that move `m` of state `s` places: the held piece
/// when the move holds, else the current piece.
pub open spec fn move_piece(s: C4WState, m: C4WMoveOptions) -> int {
    if m.hold {
        s.hold_piece.index()
    } else {
        s.queue_pieces@[s.queue_ptr as int].index()
    }
}

/// The list of children that move `m` of state `s` picks from, and the key
/// of its child there.
pub open spec fn move_has_child(tr: C4WTransitions, s: C4WState, m: C4WMoveOptions) -> bool {
    let p = move_piece(s, m);
    match m.change {
        C4WStateChange::Center(c) => exists|k: int|
            0 <= k < tr.center_children(s.center)[p]@.len() && #[trigger] tr.center_children(s.center)[p]@[k].0 == c,
        C4WStateChange::Left(v) => exists|k: int|
            0 <= k < tr.lr_children(true, trimmed(s.left))[p]@.len() && #[trigger] tr.lr_children(true, trimmed(s.left))[p]@[k].0
                == trimmed(v),
        C4WStateChange::Right(v) => exists|k: int|
            0 <= k < tr.lr_children(false, trimmed(s.right))[p]@.len() && #[trigger] tr.lr_children(
                false,
                trimmed(s.right),
            )[p]@[k].0 == trimmed(v),
    }
}

proof fn lemma_center_option_child(children: Seq<(u16, Vec<GameMove>)>, hold: bool, i: int)
    requires
        0 <= i < center_options(children, hold).len(),
    ensures
        center_options(children, hold)[i].hold == hold,
        center_options(children, hold)[i].change == C4WStateChange::Center(children[i].0),
{
}

proof fn lemma_lr_option_child(
    children: Seq<((i8, i8, i8), Vec<GameMove>)>,
    h: int,
    left: bool,
    hold: bool,
    i: int,
) -> (k: int)
    requires
        0 <= h < 64,
        forall|c: int| 0 <= c < children.len() ==> small_lr(#[trigger] children[c].0) && min3(children[c].0) == 0,
        0 <= i < lr_options(children, h, left, hold).len(),
    ensures
        0 <= k < children.len(),
        lr_options(children, h, left, hold)[i].hold == hold,
        lr_options(children, h, left, hold)[i].change matches C4WStateChange::Left(v) ==> left && trimmed(v) == children[k].0,
        lr_options(children, h, left, hold)[i].change matches C4WStateChange::Right(v) ==> !left && trimmed(v) == children[k].0,
        !(lr_options(children, h, left, hold)[i].change is Center),
    decreases children.len(),
{
    let rest = children.drop_last();
    assert forall|c: int| 0 <= c < rest.len() implies small_lr(#[trigger] rest[c].0) && min3(rest[c].0) == 0 by {
        assert(rest[c] == children[c]);
    }
    if i < lr_options(rest, h, left, hold).len() {
        let k = lemma_lr_option_child(rest, h, left, hold, i);
        assert(rest[k] == children[k]);
        k
    } else {
        let c = children.last().0;
        assert(small_lr(children[children.len() - 1].0) && min3(children[children.len() - 1].0) == 0);
        let v = ((c.0 + h) as i8, (c.1 + h) as i8, (c.2 + h) as i8);
        assert(min3(v) == h);
        assert(trimmed(v) == c);
        children.len() - 1
    }
}

/// Each move of a state picks a child of the list its piece and area name.
pub proof fn lemma_state_move_child(tr: C4WTransitions, s: C4WState, m: C4WMoveOptions)
    requires
        s.wf(),
        tr.wf(),
        tr.closed(),
        small_lr(s.left),
        small_lr(s.right),
        tr.has_center(s.center),
        tr.has_lr(true, trimmed(s.left)),
        tr.has_lr(false, trimmed(s.right)),
        state_moves(tr, s).contains(m),
    ensures
        move_has_child(tr, s, m),
{
    let cur = s.queue_pieces@[s.queue_ptr as int].index();
    let hold = s.hold_piece.index();
    let kl = choose|k: int| 0 <= k < tr.lr_table(true).len() && #[trigger] tr.lr_table(true)[k].0 == trimmed(s.left);
    let kr = choose|k: int| 0 <= k < tr.lr_table(false).len() && #[trigger] tr.lr_table(false)[k].0 == trimmed(s.right);
    let ce = tr.center_children(s.center);
    let le = tr.lr_children(true, trimmed(s.left));
    let re = tr.lr_children(false, trimmed(s.right));
    assert(le == tr.left@[kl].1@);
    assert(re == tr.right@[kr].1@);
    assert(tr.left@[kl].1@.len() == 7);
    assert(tr.right@[kr].1@.len() == 7);
    assert forall|p: int, c: int| 0 <= p < 7 && 0 <= c < le[p]@.len() implies small_lr(#[trigger] le[p]@[c].0) && min3(le[p]@[c].0) == 0 by {
        assert(small_lr(tr.left@[kl].1@[p]@[c].0));
        assert(min3(tr.left@[kl].1@[p]@[c].0) == 0);
    }
    assert forall|p: int, c: int| 0 <= p < 7 && 0 <= c < re[p]@.len() implies small_lr(#[trigger] re[p]@[c].0) && min3(re[p]@[c].0) == 0 by {
        assert(small_lr(tr.right@[kr].1@[p]@[c].0));
        assert(min3(tr.right@[kr].1@[p]@[c].0) == 0);
    }
    let a1 = center_options(ce[cur]@, false);
    let a2 = center_options(ce[hold]@, true);
    let a3 = lr_options(le[cur]@, min3(s.left), true, false);
    let a4 = lr_options(le[hold]@, min3(s.left), true, true);
    let a5 = lr_options(re[cur]@, min3(s.right), false, false);
    let a6 = lr_options(re[hold]@, min3(s.right), false, true);
    let all = state_moves(tr, s);
    assert(all == a1 + a2 + a3 + a4 + a5 + a6);
    let i = choose|i: int| 0 <= i < all.len() && all[i] == m;
    let n1 = a1.len() as int;
    let n2 = n1 + a2.len();
    let n3 = n2 + a3.len();
    let n4 = n3 + a4.len();
    let n5 = n4 + a5.len();
    assert(min3(s.left) >= 0 && min3(s.left) < 64);
    assert(min3(s.right) >= 0 && min3(s.right) < 64);
    if i < n1 {
        assert(all[i] == a1[i]);
        lemma_center_option_child(ce[cur]@, false, i);
        assert(!m.hold);
        assert(move_piece(s, m) == cur);
        assert(tr.center_children(s.center)[cur]@[i].0 == m.change->Center_0);
    } else if i < n2 {
        assert(all[i] == a2[i - n1]);
        lemma_center_option_child(ce[hold]@, true, i - n1);
        assert(m.hold);
        assert(move_piece(s, m) == hold);
        assert(tr.center_children(s.center)[hold]@[i - n1].0 == m.change->Center_0);
    } else if i < n3 {
        assert(all[i] == a3[i - n2]);
        let k = lemma_lr_option_child(le[cur]@, min3(s.left), true, false, i - n2);
        assert(le[cur]@[k].0 == trimmed(m.change->Left_0));
        assert(!m.hold);
        assert(move_piece(s, m) == cur);
        assert(tr.lr_children(true, trimmed(s.left))[cur]@[k].0 == trimmed(m.change->Left_0));
    } else if i < n4 {
        assert(all[i] == a4[i - n3]);
        let k = lemma_lr_option_child(le[hold]@, min3(s.left), true, true, i - n3);
        assert(le[hold]@[k].0 == trimmed(m.change->Left_0));
        assert(m.hold);
        assert(move_piece(s, m) == hold);
        assert(tr.lr_children(true, trimmed(s.left))[hold]@[k].0 == trimmed(m.change->Left_0));
    } else if i < n5 {
        assert(all[i] == a5[i - n4]);
        let k = lemma_lr_option_child(re[cur]@, min3(s.right), false, false, i - n4);
        assert(re[cur]@[k].0 == trimmed(m.change->Right_0));
        assert(!m.hold);
        assert(move_piece(s, m) == cur);
        assert(tr.lr_children(false, trimmed(s.right))[cur]@[k].0 == trimmed(m.change->Right_0));
    } else {
        assert(all[i] == a6[i - n5]);
        let k = lemma_lr_option_child(re[hold]@, min3(s.right), false, true, i - n5);
        assert(re[hold]@[k].0 == trimmed(m.change->Right_0));
        assert(m.hold);
        assert(move_piece(s, m) == hold);
        assert(tr.lr_children(false, trimmed(s.right))[hold]@[k].0 == trimmed(m.change->Right_0));
    }
}

fn push_center_options(ret: &mut Vec<C4WMoveOptions>, children: &Vec<(u16, Vec<GameMove>)>, hold: bool)
    ensures
        final(ret)@ == old(ret)@ + center_options(children@, hold),
{
    let mut i: usize = 0;
    while i < children.len()
        invariant
            0 <= i <= children@.len(),
            ret@ == old(ret)@ + center_options(children@.take(i as int), hold),
        decreases children@.len() - i,
    {
        ret.push(C4WMoveOptions { change: C4WStateChange::Center(children[i].0), hold });
        assert(center_options(children@.take(i + 1), hold) =~= center_options(children@.take(i as int), hold).push(
            C4WMoveOptions { change: C4WStateChange::Center(children@[i as int].0), hold },
        ));
        assert(ret@ =~= old(ret)@ + center_options(children@.take(i + 1), hold));
        i += 1;
    }
    assert(children@.take(i as int) =~= children@);
}

fn push_lr_options(
    ret: &mut Vec<C4WMoveOptions>,
    children: &Vec<((i8, i8, i8), Vec<GameMove>)>,
    h: i8,
    left: bool,
    hold: bool,
)
    requires
        0 <= h < 64,
        forall|c: int| 0 <= c < children@.len() ==> small_lr(#[trigger] children@[c].0),
    ensures
        final(ret)@ == old(ret)@ + lr_options(children@, h as int, left, hold),
{
    let mut i: usize = 0;
    while i < children.len()
        invariant
            0 <= i <= children@.len(),
            0 <= h < 64,
            forall|c: int| 0 <= c < children@.len() ==> small_lr(#[trigger] children@[c].0),
            ret@ == old(ret)@ + lr_options(children@.take(i as int), h as int, left, hold),
        decreases children@.len() - i,
    {
        let state = children[i].0;
        assert(small_lr(children@[i as int].0));
        assert(children@.take(i + 1).drop_last() =~= children@.take(i as int));
        if is_lr_valid(state, h) {
            let change = if left {
                C4WStateChange::Left(inflate_lr(state, h))
            } else {
                C4WStateChange::Right(inflate_lr(state, h))
            };
            ret.push(C4WMoveOptions { change, hold });
        }
        assert(ret@ =~= old(ret)@ + lr_options(children@.take(i + 1), h as int, left, hold));
        i += 1;
    }
    assert(children@.take(i as int) =~= children@);
}

/// The pieces of a game, current first, as piece numbers.
pub open spec fn game_piece_numbers(game: Game) -> Seq<int> {
    seq![game.current_piece.piece_type.index()] + game.queue_pieces@.map_values(
        |t: crate::common::piece::PieceType| t.index(),
    )
}

/// The side areas of a game's board hold no hole.
pub open spec fn sides_without_holes(game: Game) -> bool {
    &&& forall|i: int| 0 <= i < 3 ==> game.board.holes[i] == 0
    &&& forall|i: int| 7 <= i < 10 ==> game.board.holes[i] == 0
}

/// The heights of the three columns of the left area of a game's board, or
/// of the right area.
pub open spec fn side_heights(game: Game, left: bool) -> (i8, i8, i8) {
    if left {
        (game.board.height_map[0], game.board.height_map[1], game.board.height_map[2])
    } else {
        (game.board.height_map[7], game.board.height_map[8], game.board.height_map[9])
    }
}

/// `s` is the bot's state of game `game`: the held piece, the current piece
/// followed by the queue, the cells of the center area and the heights of
/// the side areas.
pub open spec fn state_of_game(game: Game, s: C4WState) -> bool {
    &&& game.hold_piece is Some
    &&& s.hold_piece.index() == game.hold_piece->0.index()
    &&& s.queue_pieces@.map_values(|t: PieceType| t.index()) == game_piece_numbers(game)
    &&& s.queue_ptr == 0
    &&& center_bits_match(s.center, game.board.matrix@)
    &&& s.left == side_heights(game, true)
    &&& s.right == side_heights(game, false)
}

impl C4WState {
    /// The bot's state of a game: its pieces, the cells of the center area
    /// and the heights of the side areas.  Refused when nothing is held, and
    /// when the center state is unknown to the transitions or a side area
    /// has a hole.
    pub fn from_game(game: &Game, transitions: &C4WTransitions) -> (res: Result<Self, C4WConstructErr>)
        requires
            transitions.wf(),
        ensures
            game.hold_piece is None ==> (res matches Err(C4WConstructErr::HoldIsNone)),
            game.hold_piece is Some ==> (res is Ok <==> (sides_without_holes(*game) && forall|c: u16|
                center_bits_match(c, game.board.matrix@) ==> transitions.has_center(c))),
            game.hold_piece is Some && res is Err ==> (res matches Err(C4WConstructErr::InvalidBoard)),
            res matches Ok(s) ==> state_of_game(*game, s),
    {
        let hold_piece = match &game.hold_piece {
            Some(piece) => PieceType::from_common(piece),
            None => return Err(C4WConstructErr::HoldIsNone),
        };
        let mut queue_pieces: Vec<PieceType> = Vec::new();
        queue_pieces.push(PieceType::from_common(&game.current_piece.piece_type));
        let mut k: usize = 0;
        while k < game.queue_pieces.len()
            invariant
                0 <= k <= game.queue_pieces@.len(),
                queue_pieces@.map_values(|t: PieceType| t.index()) == game_piece_numbers(*game).take(k + 1),
            decreases game.queue_pieces@.len() - k,
        {
            let t = PieceType::from_common(&game.queue_pieces[k]);
            assert(t.index() == game.queue_pieces@[k as int].index());
            assert(game_piece_numbers(*game)[k + 1] == game.queue_pieces@[k as int].index());
            let ghost before = queue_pieces@;
            queue_pieces.push(t);
            assert(queue_pieces@.map_values(|t: PieceType| t.index()) =~= before.map_values(|t: PieceType| t.index()).push(t.index()));
            assert(queue_pieces@.map_values(|t: PieceType| t.index()) =~= game_piece_numbers(*game).take(k + 2));
            k += 1;
        }
        assert(game_piece_numbers(*game).take(k + 1) =~= game_piece_numbers(*game));
        let center = C4WTransitions::center_get_state(&game.board);
        proof {
            assert forall|c: u16| center_bits_match(c, game.board.matrix@) implies c == center by {
                assert forall|b: int| 0 <= b < 16 implies has_bit(c, b) == has_bit(center, b) by {}
                crate::bits::lemma_bits_equal(c, center);
            }
        }
        if transitions.find_center(center).is_none() {
            return Err(C4WConstructErr::InvalidBoard);
        }
        let mut i: i32 = 0;
        while i < LR_WIDTH
            invariant
                0 <= i <= 3,
                game.hold_piece is Some,
                forall|c: u16| center_bits_match(c, game.board.matrix@) ==> transitions.has_center(c),
                forall|j: int| 0 <= j < i ==> game.board.holes[j] == 0,
            decreases 3 - i,
        {
            let col = i + LEFT_COL;
            if game.board.holes[col as usize] != 0 {
                return Err(C4WConstructErr::InvalidBoard);
            }
            i += 1;
        }
        let left = C4WTransitions::lr_get_state(&game.board, true);
        let mut i: i32 = 0;
        while i < LR_WIDTH
            invariant
                0 <= i <= 3,
                game.hold_piece is Some,
                forall|c: u16| center_bits_match(c, game.board.matrix@) ==> transitions.has_center(c),
                forall|j: int| 0 <= j < 3 ==> game.board.holes[j] == 0,
                forall|j: int| 7 <= j < 7 + i ==> game.board.holes[j] == 0,
            decreases 3 - i,
        {
            let col = i + RIGHT_COL;
            if game.board.holes[col as usize] != 0 {
                return Err(C4WConstructErr::InvalidBoard);
            }
            i += 1;
        }
        let right = C4WTransitions::lr_get_state(&game.board, false);
        Ok(C4WState { hold_piece, queue_pieces, queue_ptr: 0, left, center, right })
    }

    /// Puts the state into a game: its pieces, from the first of the queue,
    /// and a board with the side areas filled to row 20 and the center
    /// area holding the center cells.
    pub fn apply_to_game(&self, game: &mut Game)
        requires
            self.queue_pieces@.len() >= 1,
            old(game).board.wf(),
        ensures
            final(game).current_piece == step_down(
                old(game).board.matrix@,
                spawn_piece(piece_type_of(self.queue_pieces@[0].index())),
            ),
            final(game).queue_pieces@.map_values(|t: crate::common::piece::PieceType| t.index())
                == self.queue_pieces@.drop_first().map_values(|t: PieceType| t.index()),
            final(game).hold_piece == Some(piece_type_of(self.hold_piece.index())),
            final(game).board.wf(),
            forall|c: int, y: int|
                0 <= c < 10 && 0 <= y < 24 ==> #[trigger] cell(final(game).board.matrix@, c, y) == if c < 3 || 7
                    <= c {
                    y < 20
                } else {
                    y < 4 && has_bit(self.center, 4 * y + c - 3)
                },
    {
        let current = self.queue_pieces[0].to_common();
        let mut queue: Vec<crate::common::piece::PieceType> = Vec::new();
        let mut k: usize = 1;
        while k < self.queue_pieces.len()
            invariant
                1 <= k <= self.queue_pieces@.len(),
                queue@.map_values(|t: crate::common::piece::PieceType| t.index()) == self.queue_pieces@.subrange(
                    1,
                    k as int,
                ).map_values(|t: PieceType| t.index()),
            decreases self.queue_pieces@.len() - k,
        {
            let t = self.queue_pieces[k].to_common();
            let ghost before = queue@;
            queue.push(t);
            assert(queue@.map_values(|t: crate::common::piece::PieceType| t.index()) =~= before.map_values(
                |t: crate::common::piece::PieceType| t.index(),
            ).push(t.index()));
            assert(queue@.map_values(|t: crate::common::piece::PieceType| t.index()) =~= self.queue_pieces@.subrange(
                1,
                k + 1,
            ).map_values(|t: PieceType| t.index()));
            k += 1;
        }
        assert(self.queue_pieces@.subrange(1, k as int) =~= self.queue_pieces@.drop_first());
        let hold = Some(self.hold_piece.to_common());
        proof {
            lemma_type_of_index(current);
            lemma_type_of_index(hold->0);
        }
        game.set_current(current);
        game.set_queue(queue.as_slice());
        game.set_hold(hold);
        C4WTransitions::lr_set_state(&mut game.board, self.left, true);
        C4WTransitions::lr_set_state(&mut game.board, self.right, false);
        C4WTransitions::center_set_state(&mut game.board, self.center);
    }

    /// Every move the bot may make: to each child of the center state, then
    /// of the left and of the right state (whose heights stay under the
    /// limit), for the current piece and then for the held one.
    pub fn get_moves(&self, transitions: &C4WTransitions) -> (moves: Vec<C4WMoveOptions>)
        requires
            self.wf(),
            transitions.wf(),
            small_lr(self.left),
            small_lr(self.right),
            transitions.has_center(self.center),
            transitions.has_lr(true, trimmed(self.left)),
            transitions.has_lr(false, trimmed(self.right)),
        ensures
            moves@ == state_moves(*transitions, *self),
    {
        let current_piece = self.queue_pieces[self.queue_ptr].to_i32() as usize;
        let hold_piece = self.hold_piece.to_i32() as usize;
        let mut moves: Vec<C4WMoveOptions> = Vec::new();
        let ci = transitions.find_center(self.center).unwrap();
        proof {
            assert(transitions.center@[ci as int].1@.len() == 7);
        }
        push_center_options(&mut moves, &transitions.center[ci].1[current_piece], false);
        push_center_options(&mut moves, &transitions.center[ci].1[hold_piece], true);
        let (state, height) = trim_lr(self.left);
        let li = transitions.find_lr(true, state).unwrap();
        proof {
            assert(transitions.left@[li as int].1@.len() == 7);
            assert forall|c: int| 0 <= c < transitions.left@[li as int].1@[current_piece as int]@.len() implies small_lr(
                #[trigger] transitions.left@[li as int].1@[current_piece as int]@[c].0,
            ) by {}
            assert forall|c: int| 0 <= c < transitions.left@[li as int].1@[hold_piece as int]@.len() implies small_lr(
                #[trigger] transitions.left@[li as int].1@[hold_piece as int]@[c].0,
            ) by {}
        }
        push_lr_options(&mut moves, &transitions.left[li].1[current_piece], height, true, false);
        push_lr_options(&mut moves, &transitions.left[li].1[hold_piece], height, true, true);
        let (state, height) = trim_lr(self.right);
        let ri = transitions.find_lr(false, state).unwrap();
        proof {
            assert(transitions.right@[ri as int].1@.len() == 7);
            assert forall|c: int| 0 <= c < transitions.right@[ri as int].1@[current_piece as int]@.len() implies small_lr(
                #[trigger] transitions.right@[ri as int].1@[current_piece as int]@[c].0,
            ) by {}
            assert forall|c: int| 0 <= c < transitions.right@[ri as int].1@[hold_piece as int]@.len() implies small_lr(
                #[trigger] transitions.right@[ri as int].1@[hold_piece as int]@[c].0,
            ) by {}
        }
        push_lr_options(&mut moves, &transitions.right[ri].1[current_piece], height, false, false);
        push_lr_options(&mut moves, &transitions.right[ri].1[hold_piece], height, false, true);
        moves
    }
}

proof fn lemma_type_of_index(t: crate::common::piece::PieceType)
    ensures
        piece_type_of(t.index()) == t,
{
    match t {
        crate::common::piece::PieceType::O => {},
        crate::common::piece::PieceType::I => {},
        crate::common::piece::PieceType::T => {},
        crate::common::piece::PieceType::L => {},
        crate::common::piece::PieceType::J => {},
        crate::common::piece::PieceType::S => {},
        crate::common::piece::PieceType::Z => {},
    }
}

} // verus!

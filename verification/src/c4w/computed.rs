//! Reading and writing the bot's areas on a board, and the move lists it
//! tries for a piece.
use vstd::prelude::*;
use crate::bits::{has_bit, lemma_bit_or, lemma_zero_has_no_bit};
use crate::c4w::consts::{CENTER_COL, CENTER_TRANSITION_HEIGHT, CENTER_TRANSITION_WIDTH, LEFT_COL, RIGHT_COL};
use crate::c4w::piece::{Piece, PieceMove};
use crate::common::board::{Board, cell};
use crate::common::computed::{location_bounds, lemma_location_bounds_range};
use crate::common::game::GameMove;

verus! {

/// Bit `4 * j + i` of a center state is the cell of row `j` of column
/// `CENTER_COL + i`.
pub open spec fn center_bits_match(state: u16, m: Seq<u16>) -> bool {
    forall|k: int| 0 <= k < 16 ==> #[trigger] has_bit(state, k) == cell(m, 3 + k % 4, k / 4)
}

/// The first column of the left area, or of the right one.
pub open spec fn lr_col(left: bool) -> int {
    if left {
        0
    } else {
        7
    }
}

/// The moves that turn a piece from orientation 0 to orientation `r`.
pub open spec fn rotation_moves(r: int) -> Seq<PieceMove> {
    if r == 1 {
        seq![PieceMove::RotateRight]
    } else if r == 2 {
        seq![PieceMove::Rotate180]
    } else if r == 3 {
        seq![PieceMove::RotateLeft]
    } else {
        Seq::empty()
    }
}

/// The moves that shift a piece by `shift` columns.
pub open spec fn shift_moves(shift: int) -> Seq<PieceMove> {
    if shift < 0 {
        Seq::new((-shift) as nat, |i: int| PieceMove::ShiftLeft)
    } else {
        Seq::new(shift as nat, |i: int| PieceMove::ShiftRight)
    }
}

/// The moves that drop a piece and then turn it into orientation `r`.
pub open spec fn final_moves(r: int) -> Seq<PieceMove> {
    if r == 0 {
        Seq::empty()
    } else {
        seq![PieceMove::SoftDrop] + rotation_moves(r)
    }
}

/// The moves that turn a piece to `r`, shift it by `shift`, then drop it
/// and turn it to `fr`.
pub open spec fn move_list(r: int, shift: int, fr: int) -> Seq<PieceMove> {
    rotation_moves(r) + shift_moves(shift) + final_moves(fr)
}

/// The number of shifts a piece of type `t` in orientation `r` may make.
pub open spec fn shift_count(t: int, r: nat) -> int {
    location_bounds(t, r).1 - location_bounds(t, r).0 + 1
}

/// The move lists of orientation `r`: every shift from the leftmost, each
/// with the four final orientations.
pub open spec fn rotation_block(t: int, r: nat) -> Seq<Seq<PieceMove>> {
    Seq::new(
        (shift_count(t, r) * 4) as nat,
        |k: int| move_list(r as int, location_bounds(t, r).0 - 3 + k / 4, k % 4),
    )
}

/// The move lists of orientations `0..n`.
pub open spec fn piece_moves_upto(t: int, n: nat) -> Seq<Seq<PieceMove>>
    decreases n,
{
    if n == 0 {
        Seq::empty()
    } else {
        piece_moves_upto(t, (n - 1) as nat) + rotation_block(t, (n - 1) as nat)
    }
}

/// The transitions of the three areas of the bot.  Each table lists
/// states; each state lists, for every piece number, the states that a drop
/// of that piece leads to, each with the moves that make the drop.
pub struct C4WTransitions {
    pub center: Vec<(u16, Vec<Vec<(u16, Vec<GameMove>)>>)>,
    pub left: Vec<((i8, i8, i8), Vec<Vec<((i8, i8, i8), Vec<GameMove>)>>)>,
    pub right: Vec<((i8, i8, i8), Vec<Vec<((i8, i8, i8), Vec<GameMove>)>>)>,
}

/// The heights of a side state all lie in `0..64`.
pub open spec fn small_lr(s: (i8, i8, i8)) -> bool {
    0 <= s.0 < 64 && 0 <= s.1 < 64 && 0 <= s.2 < 64
}

/// A side table: every state listed once, with seven lists of children, all
/// of small heights.
pub open spec fn lr_table_wf(t: Seq<((i8, i8, i8), Vec<Vec<((i8, i8, i8), Vec<GameMove>)>>)>) -> bool {
    &&& forall|k: int| 0 <= k < t.len() ==> (#[trigger] t[k]).1@.len() == 7 && small_lr(t[k].0)
    &&& forall|k: int, p: int, c: int|
        0 <= k < t.len() && 0 <= p < 7 && 0 <= c < t[k].1@[p]@.len() ==> small_lr(#[trigger] t[k].1@[p]@[c].0)
    &&& forall|a: int, b: int| 0 <= a < b < t.len() ==> #[trigger] t[a].0 != #[trigger] t[b].0
    &&& forall|k: int, p: int, a: int, b: int|
        0 <= k < t.len() && 0 <= p < 7 && 0 <= a < b < t[k].1@[p]@.len() ==> #[trigger] t[k].1@[p]@[a].0
            != #[trigger] t[k].1@[p]@[b].0
}

impl C4WTransitions {
    /// Every state of each table is listed once, with seven lists of
    /// children; side heights are small.
    pub open spec fn wf(&self) -> bool {
        &&& forall|k: int| 0 <= k < self.center@.len() ==> (#[trigger] self.center@[k]).1@.len() == 7
        &&& forall|a: int, b: int|
            0 <= a < b < self.center@.len() ==> #[trigger] self.center@[a].0 != #[trigger] self.center@[b].0
        &&& forall|k: int, p: int, a: int, b: int|
            0 <= k < self.center@.len() && 0 <= p < 7 && 0 <= a < b < self.center@[k].1@[p]@.len()
                ==> #[trigger] self.center@[k].1@[p]@[a].0 != #[trigger] self.center@[k].1@[p]@[b].0
        &&& lr_table_wf(self.left@)
        &&& lr_table_wf(self.right@)
    }

    /// Every child of every state is itself listed, side children with a
    /// lowest height of 0.
    pub open spec fn closed(&self) -> bool {
        &&& forall|k: int, p: int, c: int|
            0 <= k < self.center@.len() && 0 <= p < 7 && 0 <= c < self.center@[k].1@[p]@.len() ==> self.has_center(
                #[trigger] self.center@[k].1@[p]@[c].0,
            )
        &&& forall|k: int, p: int, c: int|
            0 <= k < self.left@.len() && 0 <= p < 7 && 0 <= c < self.left@[k].1@[p]@.len() ==> crate::c4w::state::min3(
                #[trigger] self.left@[k].1@[p]@[c].0,
            ) == 0 && self.has_lr(true, self.left@[k].1@[p]@[c].0)
        &&& forall|k: int, p: int, c: int|
            0 <= k < self.right@.len() && 0 <= p < 7 && 0 <= c < self.right@[k].1@[p]@.len() ==> crate::c4w::state::min3(
                #[trigger] self.right@[k].1@[p]@[c].0,
            ) == 0 && self.has_lr(false, self.right@[k].1@[p]@[c].0)
    }

    /// No list of children is longer than `b`.
    pub open spec fn children_at_most(&self, b: nat) -> bool {
        &&& forall|k: int, p: int| 0 <= k < self.center@.len() && 0 <= p < 7 ==> (#[trigger] self.center@[k].1@[p])@.len() <= b
        &&& forall|k: int, p: int| 0 <= k < self.left@.len() && 0 <= p < 7 ==> (#[trigger] self.left@[k].1@[p])@.len() <= b
        &&& forall|k: int, p: int| 0 <= k < self.right@.len() && 0 <= p < 7 ==> (#[trigger] self.right@[k].1@[p])@.len() <= b
    }

    /// The center table lists state `s`.
    pub open spec fn has_center(&self, s: u16) -> bool {
        exists|k: int| 0 <= k < self.center@.len() && #[trigger] self.center@[k].0 == s
    }

    /// The children lists of center state `s`.
    pub open spec fn center_children(&self, s: u16) -> Seq<Vec<(u16, Vec<GameMove>)>> {
        self.center@[choose|k: int| 0 <= k < self.center@.len() && #[trigger] self.center@[k].0 == s].1@
    }

    /// The left table, or the right one.
    pub open spec fn lr_table(&self, left: bool) -> Seq<((i8, i8, i8), Vec<Vec<((i8, i8, i8), Vec<GameMove>)>>)> {
        if left {
            self.left@
        } else {
            self.right@
        }
    }

    /// The side table lists state `s`.
    pub open spec fn has_lr(&self, left: bool, s: (i8, i8, i8)) -> bool {
        exists|k: int| 0 <= k < self.lr_table(left).len() && #[trigger] self.lr_table(left)[k].0 == s
    }

    /// The children lists of side state `s`.
    pub open spec fn lr_children(&self, left: bool, s: (i8, i8, i8)) -> Seq<Vec<((i8, i8, i8), Vec<GameMove>)>> {
        self.lr_table(left)[choose|k: int|
            0 <= k < self.lr_table(left).len() && #[trigger] self.lr_table(left)[k].0 == s].1@
    }

    /// The position of center state `s` in the center table.
    pub fn find_center(&self, s: u16) -> (k: Option<usize>)
        requires
            self.wf(),
        ensures
            k is None <==> !self.has_center(s),
            k matches Some(i) ==> i < self.center@.len() && self.center@[i as int].0 == s
                && self.center@[i as int].1@ == self.center_children(s),
    {
        let mut i: usize = 0;
        while i < self.center.len()
            invariant
                0 <= i <= self.center@.len(),
                self.wf(),
                forall|j: int| 0 <= j < i ==> self.center@[j].0 != s,
            decreases self.center@.len() - i,
        {
            if self.center[i].0 == s {
                proof {
                    assert(self.center@[i as int].0 == s);
                    assert(self.has_center(s));
                    let c = choose|k: int| 0 <= k < self.center@.len() && #[trigger] self.center@[k].0 == s;
                    if c != i {
                        if c < i {
                            assert(self.center@[c].0 != self.center@[i as int].0);
                        } else {
                            assert(self.center@[i as int].0 != self.center@[c].0);
                        }
                    }
                }
                return Some(i);
            }
            i += 1;
        }
        None
    }

    /// The position of side state `s` in the left or right table.
    pub fn find_lr(&self, left: bool, s: (i8, i8, i8)) -> (k: Option<usize>)
        requires
            self.wf(),
        ensures
            k is None <==> !self.has_lr(left, s),
            k matches Some(i) ==> i < self.lr_table(left).len() && self.lr_table(left)[i as int].0 == s
                && self.lr_table(left)[i as int].1@ == self.lr_children(left, s),
    {
        let table = if left {
            &self.left
        } else {
            &self.right
        };
        let mut i: usize = 0;
        while i < table.len()
            invariant
                0 <= i <= table@.len(),
                table@ == self.lr_table(left),
                lr_table_wf(table@),
                forall|j: int| 0 <= j < i ==> table@[j].0 != s,
            decreases table@.len() - i,
        {
            let key = table[i].0;
            if key.0 == s.0 && key.1 == s.1 && key.2 == s.2 {
                proof {
                    assert(table@[i as int].0 == s);
                    assert(self.has_lr(left, s));
                    let c = choose|k: int|
                        0 <= k < self.lr_table(left).len() && #[trigger] self.lr_table(left)[k].0 == s;
                    if c != i {
                        if c < i {
                            assert(table@[c].0 != table@[i as int].0);
                        } else {
                            assert(table@[i as int].0 != table@[c].0);
                        }
                    }
                }
                return Some(i);
            }
            i += 1;
        }
        None
    }
}

proof fn lemma_center_read_step(s: u16, a: u16, k: u16)
    requires
        k < 16,
    ensures
        has_bit((s << 4u16) | ((a >> 3u16) & 15u16), k as int) == if k < 4 {
            has_bit(a, k + 3)
        } else {
            has_bit(s, k - 4)
        },
{
    if k < 4 {
        let k3 = (k + 3) as u16;
        assert((((s << 4u16) | ((a >> 3u16) & 15u16)) & (1u16 << k) != 0) == (a & (1u16 << k3) != 0))
            by (bit_vector)
            requires
                k < 4,
                k3 == k + 3,
        ;
    } else {
        let k4 = (k - 4) as u16;
        assert((((s << 4u16) | ((a >> 3u16) & 15u16)) & (1u16 << k) != 0) == (s & (1u16 << k4) != 0))
            by (bit_vector)
            requires
                4 <= k < 16,
                k4 == k - 4,
        ;
    }
}

proof fn lemma_nibble_bit(v: u16, c: u16)
    requires
        c < 16,
    ensures
        has_bit((v & 15u16) << 3u16, c as int) == (3 <= c < 7 && has_bit(v, c - 3)),
{
    if 3 <= c < 7 {
        let k = (c - 3) as u16;
        assert((((v & 15u16) << 3u16) & (1u16 << c) != 0) == (v & (1u16 << k) != 0)) by (bit_vector)
            requires
                3 <= c < 7,
                k == c - 3,
        ;
    } else {
        assert((((v & 15u16) << 3u16) & (1u16 << c) != 0) == false) by (bit_vector)
            requires
                c < 16,
                !(3 <= c < 7),
        ;
    }
}

proof fn lemma_shift_right_bit(v: u16, sh: u16, i: u16)
    requires
        sh + i < 16,
    ensures
        has_bit(v >> sh, i as int) == has_bit(v, sh + i),
{
    let k = (sh + i) as u16;
    assert(((v >> sh) & (1u16 << i) != 0) == (v & (1u16 << k) != 0)) by (bit_vector)
        requires
            sh + i < 16,
            k == sh + i,
    ;
}

impl C4WTransitions {
    /// The cells of the center area: bit `4 * j + i` is row `j` of column
    /// `CENTER_COL + i`.
    pub fn center_get_state(board: &Board) -> (state: u16)
        ensures
            center_bits_match(state, board.matrix@),
    {
        let ghost m = board.matrix@;
        let mut state: u16 = 0;
        proof {
            assert forall|k: int| 0 <= k < 16 implies !has_bit(state, k) by {
                lemma_zero_has_no_bit(k as u16);
            }
        }
        let mut j: i32 = CENTER_TRANSITION_HEIGHT;
        while j > 0
            invariant
                0 <= j <= 4,
                m == board.matrix@,
                forall|k: int|
                    0 <= k < 16 ==> #[trigger] has_bit(state, k) == (k < 4 * (4 - j) && cell(
                        m,
                        3 + k % 4,
                        j + k / 4,
                    )),
            decreases j,
        {
            j -= 1;
            let ghost before = state;
            let a = board.matrix[j as usize];
            let mut row = a >> (CENTER_COL as u16);
            row = row & 0b1111;
            state = state << 4;
            state = state | row;
            proof {
                assert forall|k: int| 0 <= k < 16 implies #[trigger] has_bit(state, k) == (k < 4 * (4
                    - j) && cell(m, 3 + k % 4, j + k / 4)) by {
                    lemma_center_read_step(before, a, k as u16);
                    if k >= 4 {
                        assert(has_bit(before, k - 4) == ((k - 4) < 4 * (4 - (j + 1)) && cell(
                            m,
                            3 + (k - 4) % 4,
                            (j + 1) + (k - 4) / 4,
                        )));
                    }
                }
            }
        }
        state
    }

    /// Sets the board to the center state: the side areas filled to row 20
    /// and the center area holding the cells of `state`.
    pub(crate) fn center_set_state(board: &mut Board, state: u16)
        ensures
            final(board).wf(),
            forall|c: int, y: int|
                0 <= c < 16 && 0 <= y < 24 ==> #[trigger] cell(final(board).matrix@, c, y) == if c < 3 || (7
                    <= c < 10) {
                    y < 20
                } else if c < 7 {
                    y < 4 && has_bit(state, 4 * y + c - 3)
                } else {
                    cell(old(board).matrix@, c, y)
                },
    {
        let heights: [i32; 10] = [20, 20, 20, 0, 0, 0, 0, 20, 20, 20];
        board.set_cols(heights);
        let ghost m0 = board.matrix@;
        proof {
            assert forall|c: int| 0 <= c < 10 implies #[trigger] heights[c] == if c < 3 || c >= 7 {
                20i32
            } else {
                0i32
            } by {
                if c == 0 {} else if c == 1 {} else if c == 2 {} else if c == 3 {} else if c == 4 {}
                else if c == 5 {} else if c == 6 {} else if c == 7 {} else if c == 8 {} else {}
            }
        }
        let ghost b0 = *board;
        let mut s = state;
        assert(m0.len() == 24);
        let mut j: usize = 0;
        while j < CENTER_TRANSITION_HEIGHT as usize
            invariant
                0 <= j <= 4,
                forall|i: int| 0 <= i < 16 && 4 * j + i < 16 ==> #[trigger] has_bit(s, i) == has_bit(state, 4 * j + i),
                m0.len() == 24,
                board.matrix@.len() == 24,
                b0.height_map == board.height_map,
                b0.holes == board.holes,
                forall|y: int| 0 <= y < 24 && y >= j ==> board.matrix@[y] == m0[y],
                forall|c: int, y: int|
                    0 <= c < 16 && 0 <= y < j ==> #[trigger] cell(board.matrix@, c, y) == (cell(m0, c, y) || (3
                        <= c < 7 && has_bit(state, 4 * y + c - 3))),
            decreases 4 - j,
        {
            let ghost prev_s = s;
            let row = (s & 0b1111) << (CENTER_COL as u16);
            let ghost before = board.matrix@;
            board.matrix[j] = board.matrix[j] | row;
            proof {
                assert forall|c: int, y: int|
                    0 <= c < 16 && 0 <= y < j + 1 implies #[trigger] cell(board.matrix@, c, y) == (cell(m0, c, y) || (3
                    <= c < 7 && has_bit(state, 4 * y + c - 3))) by {
                    if y != j {
                        assert(board.matrix@[y] == before[y]);
                        assert(cell(before, c, y) == (cell(m0, c, y) || (3 <= c < 7 && has_bit(state, 4 * y + c - 3))));
                    }
                    if y == j {
                        assert(board.matrix@[y] == before[y] | row);
                        assert(before[y] == m0[y]);
                        lemma_bit_or(before[y], row, c as u16);
                        lemma_nibble_bit(s, c as u16);
                        assert(has_bit(row, c) == (3 <= c < 7 && has_bit(s, c - 3)));
                        if 3 <= c < 7 {
                            assert(has_bit(s, c - 3) == has_bit(state, 4 * j + (c - 3)));
                        }
                        assert(cell(board.matrix@, c, y) == (has_bit(before[y], c) || has_bit(row, c)));
                    }
                }
            }
            s = s >> 4;
            proof {
                assert forall|i: int| 0 <= i < 16 && 4 * (j + 1) + i < 16 implies #[trigger] has_bit(s, i) == has_bit(state, 4 * (j + 1) + i) by {
                    lemma_shift_right_bit(prev_s, 4u16, i as u16);
                    assert(has_bit(prev_s, 4 + i) == has_bit(state, 4 * j + 4 + i));
                }
            }
            j += 1;
        }
        let ghost m1 = board.matrix@;
        proof {
            assert forall|c: int| 0 <= c < 10 && !(3 <= c < 7) implies #[trigger] board.col_wf(c) by {
                assert(b0.col_wf(c));
                assert(crate::common::board::same_column(m0, m1, c, 0, 24)) by {
                    assert forall|y: int| 0 <= y < 24 implies cell(m0, c, y) == cell(m1, c, y) by {
                        if y < 4 {
                            assert(cell(m1, c, y) == (cell(m0, c, y) || (3 <= c < 7 && has_bit(state, 4 * y + c - 3))));
                        }
                    }
                }
                crate::common::board::lemma_metadata_same_column(m0, m1, c);
            }
        }
        let mut i: i32 = 0;
        while i < CENTER_TRANSITION_WIDTH
            invariant
                0 <= i <= 4,
                board.matrix@ == m1,
                forall|c: int| 0 <= c < 10 && (!(3 <= c < 7) || c < 3 + i) ==> #[trigger] board.col_wf(c),
            decreases 4 - i,
        {
            let ghost before = *board;
            board.recalculate_metadata(i + CENTER_COL);
            assert forall|c: int| 0 <= c < 10 && (!(3 <= c < 7) || c < 3 + i + 1) implies #[trigger] board.col_wf(c) by {
                if c != i + 3 {
                    assert(before.col_wf(c));
                }
            }
            i += 1;
        }
        proof {
            assert forall|c: int, y: int| 0 <= c < 16 && 0 <= y < 24 implies #[trigger] cell(board.matrix@, c, y)
                == if c < 3 || (7 <= c < 10) {
                y < 20
            } else if c < 7 {
                y < 4 && has_bit(state, 4 * y + c - 3)
            } else {
                cell(old(board).matrix@, c, y)
            } by {
                if y < 4 {
                    assert(cell(m1, c, y) == (cell(m0, c, y) || (3 <= c < 7 && has_bit(state, 4 * y + c - 3))));
                } else {
                    assert(m1[y] == m0[y]);
                }
                assert(board.matrix@ == m1);
                assert(cell(m0, c, y) == if c < 10 {
                    y < heights[c]
                } else {
                    cell(old(board).matrix@, c, y)
                });
                if c < 10 {
                    assert(heights[c] == if c < 3 || c >= 7 {
                        20i32
                    } else {
                        0i32
                    });
                }
            }
        }
    }

    /// The heights of the left area, or of the right one.
    pub fn lr_get_state(board: &Board, left: bool) -> (state: (i8, i8, i8))
        ensures
            state.0 == board.height_map[lr_col(left)],
            state.1 == board.height_map[lr_col(left) + 1],
            state.2 == board.height_map[lr_col(left) + 2],
    {
        if left {
            (
                board.height_map[LEFT_COL as usize] as i8,
                board.height_map[(LEFT_COL + 1) as usize] as i8,
                board.height_map[(LEFT_COL + 2) as usize] as i8,
            )
        } else {
            (
                board.height_map[RIGHT_COL as usize] as i8,
                board.height_map[(RIGHT_COL + 1) as usize] as i8,
                board.height_map[(RIGHT_COL + 2) as usize] as i8,
            )
        }
    }

    /// Sets the board to the side state: the three columns of the area
    /// filled to the given heights, every other column empty.
    pub(crate) fn lr_set_state(board: &mut Board, state: (i8, i8, i8), left: bool)
        ensures
            forall|c: int, y: int|
                0 <= c < 16 && 0 <= y < 24 ==> #[trigger] cell(final(board).matrix@, c, y) == if c == lr_col(left) {
                    y < state.0
                } else if c == lr_col(left) + 1 {
                    y < state.1
                } else if c == lr_col(left) + 2 {
                    y < state.2
                } else if c < 10 {
                    false
                } else {
                    cell(old(board).matrix@, c, y)
                },
            0 <= state.0 <= 24 && 0 <= state.1 <= 24 && 0 <= state.2 <= 24 ==> final(board).wf(),
    {
        let mut heights: [i32; 10] = [0; 10];
        if left {
            heights[LEFT_COL as usize] = state.0 as i32;
            heights[(LEFT_COL + 1) as usize] = state.1 as i32;
            heights[(LEFT_COL + 2) as usize] = state.2 as i32;
        } else {
            heights[RIGHT_COL as usize] = state.0 as i32;
            heights[(RIGHT_COL + 1) as usize] = state.1 as i32;
            heights[(RIGHT_COL + 2) as usize] = state.2 as i32;
        }
        board.set_cols(heights);
    }
}

/// The moves that turn a piece to `rotation`, shift it by `shift`, then
/// drop it and turn it to `final_rotation`.
fn make_move_list(rotation: i32, shift: i32, final_rotation: i32) -> (moves: Vec<PieceMove>)
    requires
        0 <= rotation < 4,
        0 <= final_rotation < 4,
        -8 <= shift <= 8,
    ensures
        moves@ == move_list(rotation as int, shift as int, final_rotation as int),
{
    let mut moves: Vec<PieceMove> = Vec::new();
    match rotation {
        0 => {},
        1 => moves.push(PieceMove::RotateRight),
        2 => moves.push(PieceMove::Rotate180),
        _ => moves.push(PieceMove::RotateLeft),
    }
    let ghost prefix = moves@;
    assert(prefix == rotation_moves(rotation as int));
    let n = if shift < 0 {
        -shift
    } else {
        shift
    };
    let mut s: i32 = 0;
    while s < n
        invariant
            0 <= s <= n,
            n == if shift < 0 {
                -shift
            } else {
                shift as int
            },
            moves@ == prefix + shift_moves(shift as int).take(s as int),
        decreases n - s,
    {
        if shift < 0 {
            moves.push(PieceMove::ShiftLeft);
        } else {
            moves.push(PieceMove::ShiftRight);
        }
        assert(shift_moves(shift as int).take(s + 1) =~= shift_moves(shift as int).take(s as int).push(
            if shift < 0 {
                PieceMove::ShiftLeft
            } else {
                PieceMove::ShiftRight
            },
        ));
        s += 1;
    }
    assert(shift_moves(shift as int).take(s as int) =~= shift_moves(shift as int));
    let ghost mid = moves@;
    match final_rotation {
        0 => {},
        1 => {
            moves.push(PieceMove::SoftDrop);
            moves.push(PieceMove::RotateRight);
        },
        2 => {
            moves.push(PieceMove::SoftDrop);
            moves.push(PieceMove::Rotate180);
        },
        _ => {
            moves.push(PieceMove::SoftDrop);
            moves.push(PieceMove::RotateLeft);
        },
    }
    assert(moves@ =~= mid + final_moves(final_rotation as int));
    moves
}

/// Every list of moves the bot tries for a piece: each orientation, each
/// shift within the bounds, each final orientation after a drop.
pub fn gen_piece_moves(piece: &Piece) -> (ret: Vec<Vec<PieceMove>>)
    ensures
        ret@.map_values(|v: Vec<PieceMove>| v@) == piece_moves_upto(piece.piece_type.index(), 4),
{
    let ghost t = piece.piece_type.index();
    let mut ret: Vec<Vec<PieceMove>> = Vec::new();
    let mut rotation: i32 = 0;
    while rotation < 4
        invariant
            0 <= rotation <= 4,
            t == piece.piece_type.index(),
            ret@.map_values(|v: Vec<PieceMove>| v@) == piece_moves_upto(t, rotation as nat),
        decreases 4 - rotation,
    {
        let (left_bound, right_bound, _, _) = piece.get_shift_bounds(Some(rotation));
        proof {
            lemma_location_bounds_range(t, rotation as nat);
        }
        let left_bound = left_bound - 3;
        let right_bound = right_bound - 3;
        let ghost start = ret@.map_values(|v: Vec<PieceMove>| v@);
        let mut shift: i32 = left_bound;
        while shift <= right_bound
            invariant
                0 <= rotation < 4,
                t == piece.piece_type.index(),
                left_bound == location_bounds(t, rotation as nat).0 - 3,
                right_bound == location_bounds(t, rotation as nat).1 - 3,
                -7 <= left_bound <= right_bound + 1,
                right_bound <= 7,
                left_bound <= shift <= right_bound + 1,
                start == piece_moves_upto(t, rotation as nat),
                ret@.map_values(|v: Vec<PieceMove>| v@) == start + rotation_block(t, rotation as nat).take(
                    (shift - left_bound) * 4,
                ),
            decreases right_bound + 1 - shift,
        {
            let mut final_rotation: i32 = 0;
            while final_rotation < 4
                invariant
                    0 <= rotation < 4,
                    0 <= final_rotation <= 4,
                    t == piece.piece_type.index(),
                    left_bound == location_bounds(t, rotation as nat).0 - 3,
                    right_bound == location_bounds(t, rotation as nat).1 - 3,
                    left_bound <= shift <= right_bound,
                    -7 <= left_bound,
                    right_bound <= 7,
                    ret@.map_values(|v: Vec<PieceMove>| v@) == start + rotation_block(t, rotation as nat).take(
                        (shift - left_bound) * 4 + final_rotation,
                    ),
                decreases 4 - final_rotation,
            {
                let moves = make_move_list(rotation, shift, final_rotation);
                proof {
                    let k = (shift - left_bound) * 4 + final_rotation;
                    assert(k / 4 == shift - left_bound && k % 4 == final_rotation) by (nonlinear_arith)
                        requires
                            k == (shift - left_bound) * 4 + final_rotation,
                            0 <= final_rotation < 4,
                            shift - left_bound >= 0,
                    ;
                    assert(k < shift_count(t, rotation as nat) * 4);
                    assert(rotation_block(t, rotation as nat)[k] == moves@);
                }
                let ghost old_ret = ret@;
                ret.push(moves);
                proof {
                    assert(ret@.map_values(|v: Vec<PieceMove>| v@) =~= old_ret.map_values(|v: Vec<PieceMove>| v@).push(moves@));
                    let k = (shift - left_bound) * 4 + final_rotation;
                    assert(rotation_block(t, rotation as nat).take(k + 1) =~= rotation_block(t, rotation as nat).take(
                        k,
                    ).push(moves@));
                    assert(ret@.map_values(|v: Vec<PieceMove>| v@) =~= start + rotation_block(t, rotation as nat).take(
                        k + 1,
                    ));
                }
                final_rotation += 1;
            }
            shift += 1;
        }
        proof {
            assert(rotation_block(t, rotation as nat).take((shift - left_bound) * 4) =~= rotation_block(
                t,
                rotation as nat,
            ));
        }
        rotation += 1;
    }
    ret
}

} // verus!

//! The board of the compact model: forty rows, the height of every column
//! and the total number of holes.
use vstd::prelude::*;
use crate::bits::{has_bit, lemma_bit_or_single, lemma_zero_has_no_bit, lemma_bit_or};
use crate::common::computed::{first_below, count_below, col_empty, lemma_first_below_props, lemma_lead_cols_le, lemma_trail_cols_le, lemma_shape_extent, lead_empty_rows, lemma_lead_rows_filled, lemma_row_nonempty_cell, lemma_first_below_found};
use crate::rusty::consts::{BOARD_VISIBLE_HEIGHT, PIECE_COLUMN};
use crate::rusty::piece::{Piece, rusty_shift_bounds, rusty_height_map_matches, rusty_low, rusty_height};
use crate::common::board::{
    cell,
    height_below,
    holes_between,
    empty_rows,
    same_column,
    non_full,
    lemma_height_props,
    lemma_height_exact,
    lemma_height_skip_empty,
    lemma_height_same_column,
    lemma_holes_split,
    lemma_holes_empty,
    lemma_holes_range,
    lemma_holes_same_column,
    lemma_holes_none,
    lemma_non_full_len,
};

verus! {

/// The height of column `x` of a forty-row matrix.
pub open spec fn rheight(m: Seq<u16>, x: int) -> int {
    height_below(m, x, 40)
}

/// The holes of column `x` of a forty-row matrix.
pub open spec fn rholes(m: Seq<u16>, x: int) -> int {
    holes_between(m, x, 0, rheight(m, x))
}

/// The holes of columns `0..n`.
pub open spec fn total_holes(m: Seq<u16>, n: nat) -> int
    decreases n,
{
    if n == 0 {
        0
    } else {
        total_holes(m, (n - 1) as nat) + rholes(m, n - 1)
    }
}

/// No filled row stands above an empty one.
pub open spec fn stacked(m: Seq<u16>) -> bool {
    forall|y1: int, y2: int| 0 <= y1 < y2 < m.len() && #[trigger] m[y1] == 0 ==> #[trigger] m[y2] == 0
}

/// A column's height lies within the board, and its holes under its height.
pub proof fn lemma_rheight_range(m: Seq<u16>, x: int)
    ensures
        0 <= rheight(m, x) <= 40,
        0 <= rholes(m, x) <= rheight(m, x),
{
    lemma_height_props(m, x, 40);
    lemma_holes_range(m, x, 0, rheight(m, x));
}

/// The first `n` columns have at most forty holes each.
pub proof fn lemma_total_holes_range(m: Seq<u16>, n: nat)
    ensures
        0 <= total_holes(m, n) <= 40 * n,
    decreases n,
{
    if n > 0 {
        lemma_total_holes_range(m, (n - 1) as nat);
        lemma_rheight_range(m, n - 1);
    }
}

/// Changing one column changes the total by that column's difference.
pub proof fn lemma_total_holes_one_column(m1: Seq<u16>, m2: Seq<u16>, c: int, n: nat)
    requires
        forall|x: int| 0 <= x < n && x != c ==> same_column(m1, m2, x, 0, 40),
    ensures
        total_holes(m2, n) == total_holes(m1, n) - (if 0 <= c < n {
            rholes(m1, c) - rholes(m2, c)
        } else {
            0
        }),
    decreases n,
{
    if n > 0 {
        lemma_total_holes_one_column(m1, m2, c, (n - 1) as nat);
        if n - 1 != c {
            lemma_height_same_column(m1, m2, n - 1, 40);
            lemma_height_props(m1, n - 1, 40);
            assert(same_column(m1, m2, n - 1, 0, 40));
            assert(same_column(m1, m2, n - 1, 0, rheight(m1, n - 1)));
            lemma_holes_same_column(m1, m2, n - 1, 0, rheight(m1, n - 1));
        }
    }
}

/// Row `y` of the box's bottom at which a piece dropped at column `left`
/// rests: the highest of the rows at which one of its first `n` columns
/// meets the stack.
pub open spec fn rest_base(m: Seq<u16>, t: int, r: nat, left: int, n: nat) -> int
    decreases n,
{
    if n == 0 {
        -2147483648
    } else {
        let prev = rest_base(m, t, r, left, (n - 1) as nat);
        let i = n - 1;
        if first_below(t, r, i, 4) == -1 {
            prev
        } else {
            let v = rheight(m, left + i) - first_below(t, r, i, 4);
            if v > prev {
                v
            } else {
                prev
            }
        }
    }
}

/// Row `y` lies in the run of cells that column `i` of the piece fills when
/// its box's bottom rests at row `base`: from the column's lowest cell up,
/// as many rows as the column has cells.
pub open spec fn in_run(t: int, r: nat, i: int, base: int, y: int) -> bool {
    let lo = first_below(t, r, i, 4);
    lo != -1 && base + lo <= y < base + lo + count_below(t, r, i, 4)
}

/// The bits of row `y` that the first `n` columns of a piece fill when its
/// box's bottom rests at row `base` and its left edge at column `left`.
pub open spec fn run_bits(t: int, r: nat, left: int, base: int, y: int, n: nat) -> u16
    decreases n,
{
    if n == 0 {
        0
    } else {
        let prev = run_bits(t, r, left, base, y, (n - 1) as nat);
        if in_run(t, r, n - 1, base, y) {
            prev | (1u16 << ((left + n - 1) as u16))
        } else {
            prev
        }
    }
}

/// Every column of the piece, its box's bottom at row `base`, ends below
/// the board's top row.
pub open spec fn runs_fit(t: int, r: nat, base: int) -> bool {
    forall|i: int|
        0 <= i < 4 && !#[trigger] col_empty(t, r, i) ==> base + first_below(t, r, i, 4) + count_below(t, r, i, 4) <= 40
}

/// A drop of piece type `t` in orientation `r` at column `left` onto `m`
/// stays within the forty rows, and removing the full rows never runs past
/// the top one: a row is empty once the piece is placed, or none is full.
pub open spec fn drop_fits(m: Seq<u16>, t: int, r: nat, left: int) -> bool {
    let m1 = drop_placed(m, t, r, left);
    &&& runs_fit(t, r, rest_base(m, t, r, left, 4))
    &&& first_zero(m1, 0) < 40 || block_full_rows(m1) == 0
}

/// `m` with the first `n` columns of the piece filled in.
pub open spec fn placed_runs(m: Seq<u16>, t: int, r: nat, left: int, base: int, n: nat) -> Seq<u16> {
    Seq::new(m.len(), |y: int| m[y] | run_bits(t, r, left, base, y, n))
}

/// `m` with a piece of type `t` in orientation `r`, its box's left edge at
/// column `left`, dropped straight down onto the stack.
pub open spec fn drop_placed(m: Seq<u16>, t: int, r: nat, left: int) -> Seq<u16> {
    placed_runs(m, t, r, left, rest_base(m, t, r, left, 4), 4)
}

/// Index of the first empty row of `s` from `k` on, or its length.
pub open spec fn first_zero(s: Seq<u16>, k: nat) -> int
    decreases s.len() - k,
{
    if k >= s.len() {
        s.len() as int
    } else if s[k as int] == 0 {
        k as int
    } else {
        first_zero(s, k + 1)
    }
}

/// `s` after the full rows below its first empty row are removed: the rows
/// above them in that block move down, empty rows come in at the block's
/// top, and the rows from the first empty one on stay.
pub open spec fn block_cleared(s: Seq<u16>) -> Seq<u16> {
    let z = first_zero(s, 0);
    let nf = non_full(s.subrange(0, z));
    nf + Seq::new((z - nf.len()) as nat, |i: int| 0u16) + s.subrange(z, s.len() as int)
}

/// Number of full rows below the first empty row of `s`.
pub open spec fn block_full_rows(s: Seq<u16>) -> int {
    let z = first_zero(s, 0);
    z - non_full(s.subrange(0, z)).len()
}

/// The board of the compact model.
#[derive(Clone)]
pub struct Board {
    pub height_map: [i32; 10],
    pub matrix: [u16; 40],
    pub holes: i32,
}

/// Where and how a piece is dropped.
pub struct BoardDropOptions {
    pub shift: i32,
    pub rotation: i32,
}

/// What a drop did.
pub struct BoardDropResult {
    pub lines_cleared: i32,
    pub perfect_clear: bool,
}

/// What is needed to take a drop back: the board as it was.
pub struct BoardUndoInfo {
    pub height_map: [i32; 10],
    pub matrix: [u16; 40],
    pub holes: i32,
}

impl Board {
    /// Every column's height and the total of holes describe the matrix.
    pub open spec fn wf(&self) -> bool {
        &&& forall|x: int| 0 <= x < 10 ==> #[trigger] self.height_map[x] == rheight(self.matrix@, x)
        &&& self.holes == total_holes(self.matrix@, 10)
    }

    /// An empty board.
    pub fn new() -> (board: Self)
        ensures
            board.wf(),
            forall|y: int| 0 <= y < 40 ==> board.matrix[y] == 0,
    {
        let board = Board { height_map: [0; 10], matrix: [0; 40], holes: 0 };
        proof {
            let m = board.matrix@;
            assert forall|x: int| 0 <= x < 10 implies #[trigger] rholes(m, x) == 0 && 0 == rheight(m, x) by {
                assert forall|y: int| 0 <= y < 40 implies !cell(m, x, y) by {
                    lemma_zero_has_no_bit(x as u16);
                }
                lemma_height_exact(m, x, 0, 40);
            }
            lemma_total_zero(m, 10);
            assert forall|x: int| 0 <= x < 10 implies #[trigger] board.height_map[x] == rheight(m, x) by {
                assert(rholes(m, x) == 0);
            }
        }
        board
    }

    /// Drops a piece straight down from `PIECE_COLUMN + shift` in the given
    /// orientation, then removes the full rows under the first empty row.
    /// When the result reaches the row above the visible board, the board is
    /// put back as it was and the drop is refused.
    pub fn drop(&mut self, piece: &Piece, drop_info: &BoardDropOptions) -> (res: Result<
        (BoardDropResult, BoardUndoInfo),
        (),
    >)
        requires
            old(self).wf(),
            0 <= drop_info.rotation < 4,
            -rusty_shift_bounds(piece.index(), drop_info.rotation as nat).0 <= drop_info.shift
                <= rusty_shift_bounds(piece.index(), drop_info.rotation as nat).1,
            drop_fits(old(self).matrix@, piece.index(), drop_info.rotation as nat, 3 + drop_info.shift),
        ensures
            ({
                let m1 = drop_placed(
                    old(self).matrix@,
                    piece.index(),
                    drop_info.rotation as nat,
                    3 + drop_info.shift,
                );
                let m2 = block_cleared(m1);
                &&& (res is Err <==> m2[20] != 0)
                &&& res is Err ==> *final(self) == *old(self)
                &&& res matches Ok((d, u)) ==> {
                    &&& final(self).matrix@ == m2
                    &&& d.lines_cleared == block_full_rows(m1)
                    &&& d.perfect_clear == (m2[0] == 0)
                    &&& u.height_map == old(self).height_map
                    &&& u.matrix == old(self).matrix
                    &&& u.holes == old(self).holes
                }
                &&& res is Ok && stacked(old(self).matrix@) ==> final(self).wf() && stacked(final(self).matrix@)
                    && forall|y: int| 20 <= y < 40 ==> final(self).matrix[y] == 0
            }),
    {
        let ghost m0 = self.matrix@;
        let ghost t = piece.index();
        let ghost r = drop_info.rotation as nat;
        let hm = Piece::info_height_map(piece, drop_info.rotation);
        proof {
            crate::common::computed::lemma_lead_cols_range(t, r, 4);
            crate::common::computed::lemma_trail_cols_range(t, r, 4);
        }
        let left = PIECE_COLUMN + drop_info.shift;
        proof {
            assert forall|i: int| 0 <= i < 4 && !#[trigger] col_empty(t, r, i) implies 0 <= left + i < 10 by {
                lemma_lead_cols_le(t, r, i, 4);
                lemma_trail_cols_le(t, r, i, 4);
            }
            assert forall|i: int|
                0 <= i < 4 && !#[trigger] col_empty(t, r, i) implies rheight(m0, left + i) - first_below(
                t,
                r,
                i,
                4,
            ) <= 40 by {
                lemma_first_below_props(t, r, i, 4);
                lemma_rheight_range(m0, left + i);
            }
            lemma_rest_base(m0, t, r, left as int, 4, 40);
        }
        let height = self.rest_row(&hm, left, Ghost(t), Ghost(r));
        let undo_info = BoardUndoInfo { height_map: self.height_map, matrix: self.matrix, holes: self.holes };
        self.place(&hm, left, height, Ghost(t), Ghost(r));
        let ghost m1 = self.matrix@;
        proof {
            if stacked(m0) {
                lemma_placed_stacked(m0, t, r, left as int);
            }
        }
        if !self.has_empty_row() {
            proof {
                lemma_first_zero(m1, 0);
                assert(m1.subrange(0, 40) =~= m1);
                crate::common::board::lemma_non_full_same(m1);
                assert(block_cleared(m1) =~= m1);
            }
            self.undo(&undo_info);
            return Err(());
        }
        let lines_cleared = self.clear_lines();
        if self.matrix[BOARD_VISIBLE_HEIGHT as usize] != 0 {
            self.undo(&undo_info);
            return Err(());
        }
        proof {
            if stacked(m0) {
                assert forall|y: int| 20 <= y < 40 implies self.matrix[y] == 0 by {
                    assert(self.matrix@[20] == 0);
                    if y > 20 {
                        assert(self.matrix@[y] == 0);
                    }
                }
            }
        }
        let perfect_clear = self.matrix[0] == 0;
        Ok((BoardDropResult { lines_cleared, perfect_clear }, undo_info))
    }

    /// Puts the board back as it was before a drop.
    pub fn undo(&mut self, undo_info: &BoardUndoInfo)
        ensures
            final(self).height_map == undo_info.height_map,
            final(self).matrix == undo_info.matrix,
            final(self).holes == undo_info.holes,
    {
        self.height_map = undo_info.height_map;
        self.matrix = undo_info.matrix;
        self.holes = undo_info.holes;
    }

    /// Pushes every row up by one and puts `line` at the bottom.
    pub fn add_garbage_line(&mut self, line: u16)
        ensures
            final(self).matrix@ == seq![line] + old(self).matrix@.subrange(0, 39),
            final(self).wf(),
    {
        let mut i: i32 = 39;
        while i > 0
            invariant
                0 <= i <= 39,
                forall|y: int| 0 <= y <= i ==> self.matrix@[y] == old(self).matrix@[y],
                forall|y: int| i < y < 40 ==> self.matrix@[y] == old(self).matrix@[y - 1],
            decreases i,
        {
            self.matrix[i as usize] = self.matrix[(i - 1) as usize];
            i -= 1;
        }
        self.matrix[0] = line;
        assert(self.matrix@ =~= seq![line] + old(self).matrix@.subrange(0, 39));
        self.recalculate_metadata();
    }

    /// Replaces the matrix and recomputes the metadata.
    pub fn set_matrix(&mut self, matrix: [u16; 40])
        ensures
            final(self).matrix == matrix,
            final(self).wf(),
    {
        self.matrix = matrix;
        self.recalculate_metadata()
    }

    /// The row at which the bottom of the piece's box rests: the highest,
    /// over the piece's columns, of the column's height less the column's
    /// lowest cell.
    fn rest_row(&self, hm: &([i32; 4], [i32; 4]), left: i32, Ghost(t): Ghost<int>, Ghost(r): Ghost<nat>) -> (base: i32)
        requires
            self.wf(),
            rusty_height_map_matches(*hm, t, r),
            forall|i: int| 0 <= i < 4 && !#[trigger] col_empty(t, r, i) ==> 0 <= left + i < 10,
        ensures
            base == rest_base(self.matrix@, t, r, left as int, 4),
    {
        let ghost m = self.matrix@;
        let mut height: i32 = i32::MIN;
        let mut i: i32 = 0;
        while i < 4
            invariant
                0 <= i <= 4,
                self.wf(),
                m == self.matrix@,
                rusty_height_map_matches(*hm, t, r),
                forall|k: int| 0 <= k < 4 && !#[trigger] col_empty(t, r, k) ==> 0 <= left + k < 10,
                height == rest_base(m, t, r, left as int, i as nat),
            decreases 4 - i,
        {
            let low = hm.0[i as usize];
            proof {
                assert(hm.0[i as int] == rusty_low(t, r, i as int));
                lemma_first_below_props(t, r, i as int, 4);
            }
            if low != -1 {
                proof {
                    assert(!col_empty(t, r, i as int));
                    lemma_rheight_range(m, left + i);
                }
                let v = self.height_map[(left + i) as usize] - low;
                if v > height {
                    height = v;
                }
            }
            i += 1;
        }
        height
    }

    /// Fills rows `start..start + count` of column `c`.
    fn fill_run(&mut self, c: i32, start: i32, count: i32)
        requires
            0 <= c < 10,
            0 <= start,
            0 <= count,
            start + count <= 40,
        ensures
            final(self).height_map == old(self).height_map,
            final(self).holes == old(self).holes,
            forall|y: int|
                0 <= y < 40 ==> #[trigger] final(self).matrix@[y] == if start <= y < start + count {
                    old(self).matrix@[y] | (1u16 << (c as u16))
                } else {
                    old(self).matrix@[y]
                },
    {
        let mut j: i32 = 0;
        while j < count
            invariant
                0 <= j <= count,
                0 <= c < 10,
                0 <= start,
                start + count <= 40,
                self.height_map == old(self).height_map,
                self.holes == old(self).holes,
                forall|y: int|
                    0 <= y < 40 ==> #[trigger] self.matrix@[y] == if start <= y < start + j {
                        old(self).matrix@[y] | (1u16 << (c as u16))
                    } else {
                        old(self).matrix@[y]
                    },
            decreases count - j,
        {
            self.matrix[(start + j) as usize] = self.matrix[(start + j) as usize] | (1u16 << (c as u16));
            j += 1;
        }
    }

    /// Fills the runs of every column of the piece, keeping the heights and
    /// the total of holes up to date.
    fn place(&mut self, hm: &([i32; 4], [i32; 4]), left: i32, base: i32, Ghost(t): Ghost<int>, Ghost(r): Ghost<nat>)
        requires
            old(self).wf(),
            rusty_height_map_matches(*hm, t, r),
            forall|i: int| 0 <= i < 4 && !#[trigger] col_empty(t, r, i) ==> 0 <= left + i < 10,
            forall|i: int|
                0 <= i < 4 && !#[trigger] col_empty(t, r, i) ==> base >= rheight(old(self).matrix@, left + i)
                    - first_below(t, r, i, 4),
            runs_fit(t, r, base as int),
        ensures
            final(self).matrix@ == placed_runs(old(self).matrix@, t, r, left as int, base as int, 4),
            final(self).wf(),
    {
        let ghost m0 = self.matrix@;
        proof {
            assert forall|y: int| 0 <= y < 40 implies #[trigger] m0[y] == placed_runs(m0, t, r, left as int, base as int, 0)[y] by {
                let a = m0[y];
                assert((a | 0u16) == a) by (bit_vector);
            }
            assert(m0 =~= placed_runs(m0, t, r, left as int, base as int, 0));
        }
        let mut i: i32 = 0;
        while i < 4
            invariant
                0 <= i <= 4,
                rusty_height_map_matches(*hm, t, r),
                forall|k: int| 0 <= k < 4 && !#[trigger] col_empty(t, r, k) ==> 0 <= left + k < 10,
                forall|k: int|
                    0 <= k < 4 && !#[trigger] col_empty(t, r, k) ==> base >= rheight(m0, left + k)
                        - first_below(t, r, k, 4),
                runs_fit(t, r, base as int),
                m0 == old(self).matrix@,
                old(self).wf(),
                self.matrix@ == placed_runs(m0, t, r, left as int, base as int, i as nat),
                self.wf(),
                forall|x: int| 0 <= x < 10 && x >= left + i ==> #[trigger] self.height_map[x] == old(self).height_map[x],
            decreases 4 - i,
        {
            let low = hm.0[i as usize];
            let height = hm.1[i as usize];
            let ghost cur = self.matrix@;
            let ghost ii = i as int;
            proof {
                assert(hm.0[ii] == rusty_low(t, r, ii) && hm.1[ii] == rusty_height(t, r, ii));
                lemma_first_below_props(t, r, ii, 4);
                lemma_count_below_bound(t, r, ii, 4);
                lemma_total_holes_range(cur, 10);
            }
            if height != -1 {
                proof {
                    assert(!col_empty(t, r, ii));
                }
                let c = left + i;
                proof {
                    assert(self.height_map[c as int] == old(self).height_map[c as int]);
                    lemma_rheight_range(m0, c as int);
                    lemma_rheight_range(cur, c as int);
                }
                let start = base + low;
                self.holes = self.holes + (start - self.height_map[c as usize]);
                self.height_map[c as usize] = start + height;
                self.fill_run(c, start, height);
                proof {
                    let new = self.matrix@;
                    let bit = 1u16 << (c as u16);
                    assert forall|y: int| 0 <= y < 40 implies #[trigger] new[y] == placed_runs(m0, t, r, left as int, base as int, (i + 1) as nat)[y] by {
                        let a = m0[y];
                        let b = run_bits(t, r, left as int, base as int, y, i as nat);
                        assert(in_run(t, r, ii, base as int, y) == (start <= y < start + height));
                        assert(left + (i + 1) - 1 == c);
                        if start <= y < start + height {
                            assert((a | (b | bit)) == ((a | b) | bit)) by (bit_vector);
                        }
                    }
                    assert(new =~= placed_runs(m0, t, r, left as int, base as int, (i + 1) as nat));
                    assert forall|x: int, y: int| 0 <= x < 10 && 0 <= y < 40 implies #[trigger] cell(new, x, y) == (cell(cur, x, y) || (x == c && start <= y < start + height)) by {
                        if start <= y < start + height {
                            lemma_bit_or_single(cur[y], c as u16, x as u16);
                        }
                    }
                    assert forall|x: int| 0 <= x < 10 && x != c implies same_column(cur, new, x, 0, 40) by {
                        assert forall|y: int| 0 <= y < 40 implies cell(cur, x, y) == cell(new, x, y) by {
                            assert(cell(new, x, y) == (cell(cur, x, y) || (x == c && start <= y < start + height)));
                        }
                    }
                    assert forall|y: int| 0 <= y < 40 implies cell(new, c as int, y) == (cell(cur, c as int, y) || start <= y < start + height) by {
                        assert(cell(new, c as int, y) == (cell(cur, c as int, y) || (c == c && start <= y < start + height)));
                    }
                    lemma_column_run(cur, new, c as int, start as int, height as int);
                    lemma_total_holes_one_column(cur, new, c as int, 10);
                    assert forall|x: int| 0 <= x < 10 implies #[trigger] self.height_map[x] == rheight(new, x) by {
                        if x != c {
                            lemma_height_same_column(cur, new, x, 40);
                        }
                    }
                }
            } else {
                proof {
                    assert(col_empty(t, r, ii));
                    assert forall|y: int| 0 <= y < 40 implies #[trigger] cur[y] == placed_runs(m0, t, r, left as int, base as int, (i + 1) as nat)[y] by {
                        assert(!in_run(t, r, ii, base as int, y));
                    }
                    assert(cur =~= placed_runs(m0, t, r, left as int, base as int, (i + 1) as nat));
                }
            }
            i += 1;
        }
    }

    /// Takes out the full row at `p`: the rows above it, up to the empty
    /// row at `q`, move down by one.
    fn shift_down(&mut self, p: i32, Ghost(q): Ghost<int>)
        requires
            0 <= p <= q <= 39,
            forall|k: int| p <= k < q ==> old(self).matrix[k] != 0,
            old(self).matrix[q] == 0,
        ensures
            final(self).height_map == old(self).height_map,
            final(self).holes == old(self).holes,
            forall|k: int|
                0 <= k < 40 ==> #[trigger] final(self).matrix[k] == if p <= k < q {
                    old(self).matrix[k + 1]
                } else {
                    old(self).matrix[k]
                },
    {
        let mut i: i32 = p;
        while self.matrix[i as usize] != 0
            invariant
                0 <= p <= i <= q <= 39,
                forall|k: int| p <= k < q ==> old(self).matrix[k] != 0,
                old(self).matrix[q] == 0,
                self.height_map == old(self).height_map,
                self.holes == old(self).holes,
                forall|k: int|
                    0 <= k < 40 ==> #[trigger] self.matrix[k] == if p <= k < i {
                        old(self).matrix[k + 1]
                    } else {
                        old(self).matrix[k]
                    },
            decreases q - i,
        {
            self.matrix[i as usize] = self.matrix[(i + 1) as usize];
            i += 1;
        }
    }

    /// After a row under every column's top is taken out: each height goes
    /// down by one, then down past the empty cells under it, which stop
    /// counting as holes.
    fn lower_heights(&mut self)
        requires
            forall|x: int| 0 <= x < 10 ==> -100 <= #[trigger] old(self).height_map[x] <= 40,
            -20000 <= old(self).holes <= 400,
        ensures
            final(self).matrix == old(self).matrix,
            forall|x: int|
                0 <= x < 10 ==> #[trigger] final(self).height_map[x] == lowered_height(
                    old(self).matrix@,
                    x,
                    old(self).height_map[x] as int,
                ),
            final(self).holes == old(self).holes - walked_cells(old(self).matrix@, old(self).height_map@, 10),
            0 <= walked_cells(old(self).matrix@, old(self).height_map@, 10) <= 400,
    {
        let ghost m = self.matrix@;
        let ghost hm0 = self.height_map@;
        let mut x: i32 = 0;
        while x < 10
            invariant
                0 <= x <= 10,
                self.matrix == old(self).matrix,
                m == self.matrix@,
                hm0 == old(self).height_map@,
                forall|c: int| 0 <= c < 10 ==> -100 <= #[trigger] old(self).height_map[c] <= 40,
                -20000 <= old(self).holes <= 400,
                forall|c: int|
                    0 <= c < x ==> #[trigger] self.height_map[c] == lowered_height(m, c, old(self).height_map[c] as int),
                forall|c: int| x <= c < 10 ==> #[trigger] self.height_map[c] == old(self).height_map[c],
                self.holes == old(self).holes - walked_cells(m, hm0, x as nat),
                0 <= walked_cells(m, hm0, x as nat) <= 40 * x,
            decreases 10 - x,
        {
            let ghost hm_b = self.height_map;
            let ghost holes_b = self.holes;
            assert(holes_b >= -20400);
            assert(hm0[x as int] == old(self).height_map[x as int]);
            self.height_map[x as usize] = self.height_map[x as usize] - 1;
            let ghost s = self.height_map[x as int] as int;
            let mut y: i32 = self.height_map[x as usize];
            let mut stop = false;
            while y > 0 && !stop
                invariant
                    0 <= x < 10,
                    m == self.matrix@,
                    self.matrix == old(self).matrix,
                    s == old(self).height_map[x as int] - 1,
                    -101 <= s <= 39,
                    y <= s,
                    s < 0 ==> y == s && !stop && self.height_map[x as int] == s,
                    s >= 0 ==> 0 <= y,
                    s >= 0 && !stop ==> self.height_map[x as int] == y && empty_rows(m, x as int, y as int, s),
                    stop ==> self.height_map[x as int] == y + 1 && cell(m, x as int, y as int) && empty_rows(
                        m,
                        x as int,
                        y + 1,
                        s,
                    ),
                    self.holes == holes_b - (s - self.height_map[x as int]),
                    holes_b >= -20400,
                    stop ==> y + 1 <= s,
                    forall|c: int| 0 <= c < 10 && c != x ==> #[trigger] self.height_map[c] == hm_b[c],
                decreases y,
            {
                y -= 1;
                let bit = (self.matrix[y as usize] >> (x as u16)) & 1 == 1;
                proof {
                    lemma_shift_bit(m[y as int], x as u16);
                }
                if bit {
                    stop = true;
                } else {
                    self.height_map[x as usize] = self.height_map[x as usize] - 1;
                    self.holes = self.holes - 1;
                }
            }
            proof {
                let hx = old(self).height_map[x as int] as int;
                if s >= 0 {
                    lemma_height_exact(m, x as int, self.height_map[x as int] as nat, s as nat);
                    lemma_height_props(m, x as int, s as nat);
                }
                assert(self.height_map[x as int] == lowered_height(m, x as int, hx));
                assert(walked_cells(m, hm0, (x + 1) as nat) == walked_cells(m, hm0, x as nat) + (hm0[x as int] - 1
                    - lowered_height(m, x as int, hm0[x as int] as int)));
            }
            x += 1;
        }
    }

    /// Removes the full rows under the first empty row, moving the rows
    /// above each down, and counts them.
    /// Some row of the matrix is empty.
    fn has_empty_row(&self) -> (b: bool)
        ensures
            b == (first_zero(self.matrix@, 0) < 40),
    {
        proof {
            lemma_first_zero(self.matrix@, 0);
        }
        let mut y: usize = 0;
        while y < 40
            invariant
                y <= 40,
                forall|k: int| 0 <= k < y ==> self.matrix@[k] != 0,
                0 <= first_zero(self.matrix@, 0) <= 40,
                forall|i: int| 0 <= i < first_zero(self.matrix@, 0) ==> self.matrix@[i] != 0,
                first_zero(self.matrix@, 0) < 40 ==> self.matrix@[first_zero(self.matrix@, 0)] == 0,
            decreases 40 - y,
        {
            if self.matrix[y] == 0 {
                return true;
            }
            y += 1;
        }
        false
    }

    fn clear_lines(&mut self) -> (lines: i32)
        requires
            old(self).wf(),
            first_zero(old(self).matrix@, 0) < 40,
        ensures
            final(self).matrix@ == block_cleared(old(self).matrix@),
            lines == block_full_rows(old(self).matrix@),
            stacked(old(self).matrix@) ==> final(self).wf() && stacked(final(self).matrix@),
    {
        let ghost m1 = self.matrix@;
        let ghost z = first_zero(m1, 0);
        proof {
            lemma_first_zero(m1, 0);
            assert(m1.subrange(0, 0) =~= Seq::<u16>::empty());
            assert(non_full(m1.subrange(0, 0)) =~= Seq::<u16>::empty());
            lemma_total_holes_range(m1, 10);
            assert forall|x: int| 0 <= x < 10 implies 0 <= #[trigger] self.height_map[x] <= 40 by {
                lemma_rheight_range(m1, x);
            }
        }
        let mut lines_cleared: i32 = 0;
        let mut j: i32 = 0;
        while j < 40
            invariant
                0 <= lines_cleared <= j <= z <= 39,
                m1 == old(self).matrix@,
                z == first_zero(m1, 0),
                forall|k: int| 0 <= k < z ==> m1[k] != 0,
                m1[z] == 0,
                non_full(m1.subrange(0, j as int)).len() == j - lines_cleared,
                forall|k: int|
                    0 <= k < j - lines_cleared ==> #[trigger] self.matrix[k] == non_full(
                        m1.subrange(0, j as int),
                    )[k],
                forall|k: int|
                    j - lines_cleared <= k < z - lines_cleared ==> #[trigger] self.matrix[k] == m1[k
                        + lines_cleared],
                forall|k: int| z - lines_cleared <= k < z ==> #[trigger] self.matrix[k] == 0,
                forall|k: int| z <= k < 40 ==> #[trigger] self.matrix[k] == m1[k],
                forall|x: int| 0 <= x < 10 ==> -lines_cleared <= #[trigger] self.height_map[x] <= 40,
                -400 * lines_cleared <= self.holes <= 400,
                stacked(m1) ==> self.wf(),
            ensures
                j == z,
                0 <= lines_cleared <= j <= z <= 39,
                non_full(m1.subrange(0, j as int)).len() == j - lines_cleared,
                forall|k: int|
                    0 <= k < j - lines_cleared ==> #[trigger] self.matrix[k] == non_full(
                        m1.subrange(0, j as int),
                    )[k],
                forall|k: int| z - lines_cleared <= k < z ==> #[trigger] self.matrix[k] == 0,
                forall|k: int| z <= k < 40 ==> #[trigger] self.matrix[k] == m1[k],
                stacked(m1) ==> self.wf(),
            decreases 40 - j,
        {
            let row = self.matrix[(j - lines_cleared) as usize];
            if row == 0 {
                assert(j == z) by {
                    if j < z {
                        assert(self.matrix[j - lines_cleared] == m1[j - lines_cleared + lines_cleared]);
                    }
                }
                break;
            }
            let ghost sj = m1.subrange(0, j as int);
            let ghost sj1 = m1.subrange(0, j + 1);
            assert(j < z) by {
                if j == z {
                    if lines_cleared == 0 {
                        assert(self.matrix[z as int] == m1[z as int]);
                    } else {
                        assert(self.matrix[z - lines_cleared] == 0);
                    }
                }
            }
            assert(row == m1[j as int]) by {
                assert(self.matrix[j - lines_cleared] == m1[j - lines_cleared + lines_cleared]);
            }
            proof {
                assert(sj1 =~= sj.push(m1[j as int]));
                lemma_non_full_push(sj, m1[j as int]);
            }
            if row == 1023 {
                let p = j - lines_cleared;
                let ghost q = z - lines_cleared;
                let ghost cur0 = self.matrix@;
                let ghost b = *self;
                proof {
                    assert forall|k: int| p <= k < q implies self.matrix[k] != 0 by {
                        assert(self.matrix[k] == m1[k + lines_cleared]);
                    }
                    if lines_cleared == 0 {
                        assert(self.matrix[q] == m1[z as int]);
                    } else {
                        assert(self.matrix[q] == 0);
                    }
                }
                lines_cleared += 1;
                self.shift_down(p, Ghost(q));
                let ghost cur1 = self.matrix@;
                assert forall|k: int| 0 <= k < 40 implies #[trigger] cur1[k] == if p <= k < q {
                    cur0[k + 1]
                } else {
                    cur0[k]
                } by {
                    assert(self.matrix[k] == if p <= k < q {
                        b.matrix[k + 1]
                    } else {
                        b.matrix[k]
                    });
                }
                self.lower_heights();
                proof {
                    if stacked(m1) {
                        assert forall|k: int| q <= k < 40 implies cur0[k] == 0 by {
                            if k >= z {
                                assert(cur0[k] == m1[k]);
                                assert(m1[z as int] == 0);
                            } else {
                                assert(cur0[k] == 0);
                            }
                        }
                        assert forall|k: int| 0 <= k < 40 implies #[trigger] cur1[k] == if k < p {
                            cur0[k]
                        } else if k < 39 {
                            cur0[k + 1]
                        } else {
                            0u16
                        } by {
                            if k >= q && k < 39 {
                                assert(cur0[k + 1] == 0);
                            }
                        }
                        assert(cur0[p as int] == 1023);
                        assert forall|c: int| 0 <= c < 10 implies #[trigger] self.height_map[c] == rheight(cur1, c) by {
                            lemma_clear_column(cur0, cur1, c, p as int);
                        }
                        assert forall|c: int| 0 <= c < 10 implies #[trigger] rholes(cur1, c) == rholes(cur0, c) - (b.height_map[c] - 1 - lowered_height(
                            cur1,
                            c,
                            b.height_map[c] as int,
                        )) by {
                            lemma_clear_column(cur0, cur1, c, p as int);
                        }
                        lemma_walked_total(cur0, cur1, b.height_map@, 10);
                    }
                    assert forall|x: int| 0 <= x < 10 implies -lines_cleared <= #[trigger] self.height_map[x] <= 40 by {
                        lemma_lowered_range(cur1, x, b.height_map[x] as int);
                    }
                    assert forall|k: int|
                        0 <= k < j + 1 - lines_cleared implies #[trigger] self.matrix[k] == non_full(
                        sj1)[k] by {
                        assert(self.matrix[k] == cur0[k]);
                    }
                    assert forall|k: int|
                        j + 1 - lines_cleared <= k < z - lines_cleared implies #[trigger] self.matrix[k]
                        == m1[k + lines_cleared] by {
                        assert(self.matrix[k] == cur0[k + 1]);
                    }
                    assert forall|k: int| z - lines_cleared <= k < z implies #[trigger] self.matrix[k] == 0 by {
                        if k >= q {
                            assert(self.matrix[k] == cur0[k]);
                        } else {
                            assert(self.matrix[k] == cur0[k + 1]);
                        }
                    }
                    assert forall|k: int| z <= k < 40 implies #[trigger] self.matrix[k] == m1[k] by {
                        assert(self.matrix[k] == cur0[k]);
                    }
                }
            } else {
                proof {
                    assert forall|k: int|
                        0 <= k < j + 1 - lines_cleared implies #[trigger] self.matrix[k] == non_full(
                        sj1)[k] by {
                        if k == j - lines_cleared {
                            assert(self.matrix[k] == m1[k + lines_cleared]);
                        }
                    }
                }
            }
            j += 1;
        }
        proof {
            let nf = non_full(m1.subrange(0, z as int));
            assert forall|k: int| 0 <= k < 40 implies #[trigger] self.matrix@[k] == block_cleared(m1)[k] by {
                if k < z - lines_cleared {
                    assert(self.matrix[k] == nf[k]);
                } else if k < z {
                    assert(self.matrix[k] == 0);
                } else {
                    assert(self.matrix[k] == m1[k]);
                }
            }
            assert(self.matrix@ =~= block_cleared(m1));
            if stacked(m1) {
                let fm = self.matrix@;
                lemma_first_zero(m1, 0);
                lemma_non_full_nonzero(m1.subrange(0, z as int));
                assert forall|y1: int, y2: int| 0 <= y1 < y2 < fm.len() && #[trigger] fm[y1] == 0 implies #[trigger] fm[y2] == 0 by {
                    if y1 < z - lines_cleared {
                        assert(fm[y1] == nf[y1]);
                        assert(nf[y1] != 0);
                    }
                    if y2 >= z {
                        assert(m1[z as int] == 0);
                        assert(fm[y2] == m1[y2]);
                    } else if y2 >= z - lines_cleared {
                        assert(fm[y2] == 0);
                    }
                }
            }
        }
        lines_cleared
    }

    /// Recomputes every column's height and the total of holes.
    pub fn recalculate_metadata(&mut self)
        ensures
            final(self).matrix == old(self).matrix,
            final(self).wf(),
    {
        let ghost m = self.matrix@;
        self.holes = 0;
        let mut x: i32 = 0;
        while x < 10
            invariant
                0 <= x <= 10,
                self.matrix@ == m,
                m.len() == 40,
                forall|c: int| 0 <= c < x ==> #[trigger] self.height_map[c] == rheight(m, c),
                self.holes == total_holes(m, x as nat),
                0 <= self.holes <= 40 * x,
            decreases 10 - x,
        {
            self.height_map[x as usize] = 0;
            let mut encountered_block = false;
            let mut j: i32 = 40;
            let ghost holes0 = self.holes;
            while j > 0
                invariant
                    0 <= x < 10,
                    0 <= j <= 40,
                    self.matrix@ == m,
                    m.len() == 40,
                    forall|c: int| 0 <= c < x ==> #[trigger] self.height_map[c] == rheight(m, c),
                    holes0 == total_holes(m, x as nat),
                    0 <= holes0 <= 40 * x,
                    !encountered_block ==> self.height_map[x as int] == 0 && self.holes == holes0
                        && empty_rows(m, x as int, j as int, 40),
                    encountered_block ==> self.height_map[x as int] == rheight(m, x as int) && j
                        < self.height_map[x as int] <= 40 && self.holes == holes0 + holes_between(
                        m,
                        x as int,
                        j as int,
                        self.height_map[x as int] as int,
                    ),
                decreases j,
            {
                j -= 1;
                let bit = (self.matrix[j as usize] >> (x as u16)) & 1 == 1;
                proof {
                    lemma_shift_bit(m[j as int], x as u16);
                }
                assert(bit == cell(m, x as int, j as int));
                if bit {
                    if !encountered_block {
                        self.height_map[x as usize] = j + 1;
                        proof {
                            lemma_height_exact(m, x as int, (j + 1) as nat, 40);
                            assert(holes_between(m, x as int, j + 1, j + 1) == 0);
                        }
                    }
                    encountered_block = true;
                    assert(holes_between(m, x as int, j as int, self.height_map[x as int] as int)
                        == holes_between(m, x as int, j + 1, self.height_map[x as int] as int));
                } else {
                    if encountered_block {
                        proof {
                            lemma_holes_range(m, x as int, j + 1, self.height_map[x as int] as int);
                        }
                        self.holes += 1;
                    }
                }
            }
            proof {
                if !encountered_block {
                    lemma_height_exact(m, x as int, 0, 40);
                }
                lemma_rheight_range(m, x as int);
            }
            x += 1;
        }
    }
}

/// Bit `x` read by shifting is the bit `has_bit` reads.
pub proof fn lemma_shift_bit(a: u16, x: u16)
    requires
        x < 16,
    ensures
        ((a >> x) & 1 == 1) == has_bit(a, x as int),
{
    assert(((a >> x) & 1 == 1) == (a & (1u16 << x) != 0)) by (bit_vector)
        requires
            x < 16,
    ;
}

proof fn lemma_total_zero(m: Seq<u16>, n: nat)
    requires
        forall|x: int| 0 <= x < n ==> rholes(m, x) == 0,
    ensures
        total_holes(m, n) == 0,
    decreases n,
{
    if n > 0 {
        lemma_total_zero(m, (n - 1) as nat);
    }
}


/// A column's cells lie at or above its lowest one, inside the box.
pub proof fn lemma_count_below_bound(t: int, r: nat, i: int, n: nat)
    ensures
        first_below(t, r, i, n) == -1 ==> count_below(t, r, i, n) == 0,
        first_below(t, r, i, n) != -1 ==> 1 <= count_below(t, r, i, n) <= n - first_below(t, r, i, n),
    decreases n,
{
    if n > 0 {
        lemma_count_below_bound(t, r, i, (n - 1) as nat);
    }
}

/// The resting row is at least every column's own resting row, and at most
/// their highest.
pub proof fn lemma_rest_base(m: Seq<u16>, t: int, r: nat, left: int, n: nat, bound: int)
    requires
        forall|i: int|
            0 <= i < n && !#[trigger] col_empty(t, r, i) ==> rheight(m, left + i) - first_below(t, r, i, 4) <= bound,
    ensures
        forall|i: int|
            0 <= i < n && !#[trigger] col_empty(t, r, i) ==> rest_base(m, t, r, left, n) >= rheight(m, left + i)
                - first_below(t, r, i, 4),
        rest_base(m, t, r, left, n) == -2147483648 || rest_base(m, t, r, left, n) <= bound,
        rest_base(m, t, r, left, n) == -2147483648 || exists|i: int|
            0 <= i < n && !#[trigger] col_empty(t, r, i) && rest_base(m, t, r, left, n) == rheight(m, left + i)
                - first_below(t, r, i, 4),
        (exists|i: int| 0 <= i < n && !#[trigger] col_empty(t, r, i)) ==> rest_base(m, t, r, left, n) != -2147483648,
    decreases n,
{
    if n > 0 {
        lemma_rest_base(m, t, r, left, (n - 1) as nat, bound);
        lemma_rheight_range(m, left + n - 1);
        lemma_first_below_props(t, r, n - 1, 4);
        if !col_empty(t, r, n - 1) {
            assert(rheight(m, left + n - 1) - first_below(t, r, n - 1, 4) <= bound);
        }
    }
}

/// Bit `c` of `run_bits` is set exactly when `c` is a column of the piece
/// whose run holds row `y`.
pub proof fn lemma_run_bits_bit(t: int, r: nat, left: int, base: int, y: int, n: nat, c: int)
    requires
        n <= 4,
        forall|i: int| 0 <= i < n && !#[trigger] col_empty(t, r, i) ==> 0 <= left + i < 10,
        0 <= c < 16,
    ensures
        has_bit(run_bits(t, r, left, base, y, n), c) == (0 <= c - left < n && in_run(t, r, c - left, base, y)),
    decreases n,
{
    if n == 0 {
        lemma_zero_has_no_bit(c as u16);
    } else {
        lemma_run_bits_bit(t, r, left, base, y, (n - 1) as nat, c);
        if in_run(t, r, n - 1, base, y) {
            assert(!col_empty(t, r, n - 1));
            lemma_bit_or_single(run_bits(t, r, left, base, y, (n - 1) as nat), (left + n - 1) as u16, c as u16);
        }
    }
}

/// Filling a run of cells at or above a column's height raises the height
/// to the run's top, and the rows skipped between become holes.
proof fn lemma_column_run(m1: Seq<u16>, m2: Seq<u16>, c: int, start: int, cnt: int)
    requires
        m1.len() == 40,
        m2.len() == 40,
        forall|y: int| 0 <= y < 40 ==> cell(m2, c, y) == (cell(m1, c, y) || start <= y < start + cnt),
        rheight(m1, c) <= start,
        1 <= cnt,
        start + cnt <= 40,
    ensures
        rheight(m2, c) == start + cnt,
        rholes(m2, c) == rholes(m1, c) + start - rheight(m1, c),
{
    let h = rheight(m1, c);
    lemma_height_props(m1, c, 40);
    assert(cell(m2, c, start + cnt - 1));
    lemma_height_exact(m2, c, (start + cnt) as nat, 40);
    lemma_holes_split(m2, c, 0, h, start + cnt);
    lemma_holes_split(m2, c, h, start, start + cnt);
    lemma_holes_same_column(m1, m2, c, 0, h);
    lemma_holes_empty(m2, c, h, start);
    lemma_holes_none(m2, c, start, start + cnt);
}


/// The height the line-clear bookkeeping gives a column whose recorded
/// height was `h`, once a row under its top is taken out of `m`: one less,
/// then down past the empty cells under it.
pub open spec fn lowered_height(m: Seq<u16>, x: int, h: int) -> int {
    if h - 1 < 0 {
        h - 1
    } else {
        height_below(m, x, (h - 1) as nat)
    }
}

/// The empty cells that bookkeeping walks past in columns `0..n`.
pub open spec fn walked_cells(m: Seq<u16>, hm: Seq<i32>, n: nat) -> int
    decreases n,
{
    if n == 0 {
        0
    } else {
        walked_cells(m, hm, (n - 1) as nat) + (hm[n - 1] - 1 - lowered_height(m, n - 1, hm[n - 1] as int))
    }
}

proof fn lemma_lowered_range(m: Seq<u16>, x: int, h: int)
    ensures
        h - 1 < 0 ==> lowered_height(m, x, h) == h - 1,
        h - 1 >= 0 ==> 0 <= lowered_height(m, x, h) <= h - 1,
{
    if h - 1 >= 0 {
        lemma_height_props(m, x, (h - 1) as nat);
    }
}

/// Where the first empty row of `s` from `k` on lies.
pub proof fn lemma_first_zero(s: Seq<u16>, k: nat)
    requires
        k <= s.len(),
    ensures
        k <= first_zero(s, k) <= s.len(),
        forall|i: int| k <= i < first_zero(s, k) ==> s[i] != 0,
        first_zero(s, k) < s.len() ==> s[first_zero(s, k)] == 0,
    decreases s.len() - k,
{
    if k < s.len() && s[k as int] != 0 {
        lemma_first_zero(s, k + 1);
    }
}

/// Adding a row at the end of a sequence adds it to its non-full rows
/// unless it is full.
pub proof fn lemma_non_full_push(s: Seq<u16>, a: u16)
    ensures
        non_full(s.push(a)) == if a == 1023 {
            non_full(s)
        } else {
            non_full(s).push(a)
        },
    decreases s.len(),
{
    if s.len() == 0 {
        assert(s.push(a).drop_first() =~= Seq::<u16>::empty());
        assert(non_full(Seq::<u16>::empty()) =~= Seq::<u16>::empty());
        if a != 1023 {
            assert(seq![a] + Seq::<u16>::empty() =~= Seq::<u16>::empty().push(a));
        }
    } else {
        assert(s.push(a).drop_first() =~= s.drop_first().push(a));
        lemma_non_full_push(s.drop_first(), a);
        if s[0] != 1023 {
            if a == 1023 {
            } else {
                assert(seq![s[0]] + non_full(s.drop_first()).push(a) =~= (seq![s[0]] + non_full(
                    s.drop_first(),
                )).push(a));
            }
        }
    }
}

/// Empty cells counted over a range equal those over the range one row up
/// when the column is that range moved down by one.
proof fn lemma_holes_shifted(m1: Seq<u16>, m2: Seq<u16>, x: int, lo: int, hi: int)
    requires
        forall|k: int| lo <= k < hi ==> cell(m2, x, k) == cell(m1, x, k + 1),
    ensures
        holes_between(m2, x, lo, hi) == holes_between(m1, x, lo + 1, hi + 1),
    decreases hi - lo,
{
    if lo < hi {
        lemma_holes_shifted(m1, m2, x, lo + 1, hi);
    }
}

/// Taking a full row `p` out of a matrix whose rows from some point on are
/// empty: a column's cells above `p` move down by one, so its height
/// becomes that of its cells under its old top, and it loses exactly the
/// holes that the bookkeeping walks past.
proof fn lemma_clear_column(m0: Seq<u16>, m1: Seq<u16>, x: int, p: int)
    requires
        m0.len() == 40,
        m1.len() == 40,
        0 <= x < 10,
        0 <= p < 39,
        m0[p] == 1023,
        forall|k: int|
            0 <= k < 40 ==> #[trigger] m1[k] == if k < p {
                m0[k]
            } else if k < 39 {
                m0[k + 1]
            } else {
                0u16
            },
    ensures
        lowered_height(m1, x, rheight(m0, x)) == rheight(m1, x),
        rholes(m1, x) == rholes(m0, x) - (rheight(m0, x) - 1 - lowered_height(m1, x, rheight(m0, x))),
{
    let h = rheight(m0, x);
    assert(cell(m0, x, p)) by {
        assert(has_bit(1023u16, x)) by {
            let xx = x as u16;
            assert(1023u16 & (1u16 << xx) != 0) by (bit_vector)
                requires
                    xx < 10,
            ;
        }
    }
    lemma_height_props(m0, x, 40);
    assert(h >= p + 1);
    assert(empty_rows(m1, x, h - 1, 40)) by {
        assert forall|k: int| h - 1 <= k < 40 implies !cell(m1, x, k) by {
            if k == 39 {
                assert(m1[k] == 0u16);
                lemma_zero_has_no_bit(x as u16);
            } else {
                assert(m1[k] == m0[k + 1]);
                assert(!cell(m0, x, k + 1));
            }
        }
    }
    lemma_height_skip_empty(m1, x, (h - 1) as nat, 40);
    let h1 = height_below(m1, x, (h - 1) as nat);
    lemma_height_props(m1, x, (h - 1) as nat);
    assert(same_column(m0, m1, x, 0, p)) by {
        assert forall|k: int| 0 <= k < p implies cell(m0, x, k) == cell(m1, x, k) by {
            assert(m1[k] == m0[k]);
        }
    }
    assert forall|k: int| p <= k < h - 1 implies cell(m1, x, k) == cell(m0, x, k + 1) by {
        assert(m1[k] == m0[k + 1]);
    }
    lemma_holes_shifted(m0, m1, x, p, h - 1);
    lemma_holes_split(m1, x, 0, p, h - 1);
    lemma_holes_same_column(m0, m1, x, 0, p);
    lemma_holes_split(m0, x, 0, p, h);
    assert(holes_between(m0, x, p, h) == holes_between(m0, x, p + 1, h));
    lemma_holes_split(m1, x, 0, h1, h - 1);
    lemma_holes_empty(m1, x, h1, h - 1);
}

/// The total of holes after a full row is taken out, from every column's
/// loss.
proof fn lemma_walked_total(m0: Seq<u16>, m1: Seq<u16>, hm: Seq<i32>, n: nat)
    requires
        forall|c: int|
            0 <= c < n ==> #[trigger] rholes(m1, c) == rholes(m0, c) - (hm[c] - 1 - lowered_height(
                m1,
                c,
                hm[c] as int,
            )),
    ensures
        total_holes(m1, n) == total_holes(m0, n) - walked_cells(m1, hm, n),
    decreases n,
{
    if n > 0 {
        lemma_walked_total(m0, m1, hm, (n - 1) as nat);
        assert(rholes(m1, n - 1) == rholes(m0, n - 1) - (hm[n - 1] - 1 - lowered_height(
            m1,
            n - 1,
            hm[n - 1] as int,
        )));
    }
}


/// The non-full rows of a sequence of non-empty rows are non-empty.
proof fn lemma_non_full_nonzero(s: Seq<u16>)
    requires
        forall|i: int| 0 <= i < s.len() ==> s[i] != 0,
    ensures
        forall|k: int| 0 <= k < non_full(s).len() ==> non_full(s)[k] != 0,
    decreases s.len(),
{
    if s.len() > 0 {
        lemma_non_full_nonzero(s.drop_first());
        if s[0] != 1023 {
            let nf = non_full(s);
            assert forall|k: int| 0 <= k < nf.len() implies nf[k] != 0 by {
                if k > 0 {
                    assert(nf[k] == non_full(s.drop_first())[k - 1]);
                }
            }
        }
    }
}


/// Row `y` of the box is covered by the run of one of the piece's columns.
pub open spec fn covered(t: int, r: nat, y: int) -> bool {
    in_run(t, r, 0, 0, y) || in_run(t, r, 1, 0, y) || in_run(t, r, 2, 0, y) || in_run(t, r, 3, 0, y)
}

/// The rows covered by a piece's runs have no gap.
proof fn lemma_rows_convex(t: int, r: nat)
    requires
        0 <= t < 7,
        r < 4,
    ensures
        forall|y1: int, y2: int, y3: int|
            0 <= y1 < y2 < y3 < 4 && #[trigger] covered(t, r, y1) && #[trigger] covered(t, r, y3) ==> #[trigger] covered(
                t,
                r,
                y2,
            ),
{
    reveal_with_fuel(crate::common::computed::shape_cell, 4);
    reveal_with_fuel(first_below, 5);
    reveal_with_fuel(count_below, 5);
    assert(covered(t, r, 1) || !(covered(t, r, 0) && (covered(t, r, 2) || covered(t, r, 3))));
    assert(covered(t, r, 2) || !((covered(t, r, 0) || covered(t, r, 1)) && covered(t, r, 3)));
}


/// A non-zero row has a set bit.
proof fn lemma_some_bit(a: u16) -> (c: int)
    requires
        a != 0,
    ensures
        0 <= c < 16,
        has_bit(a, c),
{
    if forall|c: int| 0 <= c < 16 ==> !has_bit(a, c) {
        assert forall|c: int| 0 <= c < 16 implies has_bit(a, c) == has_bit(0u16, c) by {
            lemma_zero_has_no_bit(c as u16);
        }
        crate::bits::lemma_bits_equal(a, 0u16);
        0
    } else {
        choose|c: int| 0 <= c < 16 && has_bit(a, c)
    }
}

/// A row of the placed matrix is empty only when the row was empty and no
/// run of the piece reaches it.
proof fn lemma_placed_row_zero(a: u16, b: u16)
    ensures
        (a | b) == 0 <==> (a == 0 && b == 0),
{
    assert((a | b) == 0 <==> (a == 0 && b == 0)) by (bit_vector);
}

/// No run of the piece reaches row `y` when `run_bits` gives it no bit,
/// and some run does when it gives one.
proof fn lemma_run_bits_zero(t: int, r: nat, left: int, base: int, y: int)
    requires
        forall|i: int| 0 <= i < 4 && !#[trigger] col_empty(t, r, i) ==> 0 <= left + i < 10,
    ensures
        run_bits(t, r, left, base, y, 4) == 0 <==> !covered(t, r, y - base),
{
    let rb = run_bits(t, r, left, base, y, 4);
    if rb == 0 {
        assert forall|i: int| 0 <= i < 4 implies !in_run(t, r, i, base, y) by {
            if in_run(t, r, i, base, y) {
                assert(!col_empty(t, r, i));
                lemma_run_bits_bit(t, r, left, base, y, 4, left + i);
                lemma_zero_has_no_bit((left + i) as u16);
            }
        }
        assert(!in_run(t, r, 0, base, y) && !in_run(t, r, 1, base, y) && !in_run(t, r, 2, base, y) && !in_run(t, r, 3, base, y));
        assert(!in_run(t, r, 0, 0, y - base) && !in_run(t, r, 1, 0, y - base) && !in_run(t, r, 2, 0, y - base) && !in_run(t, r, 3, 0, y - base));
    } else {
        let c = lemma_some_bit(rb);
        lemma_run_bits_bit(t, r, left, base, y, 4, c);
        assert(in_run(t, r, c - left, base, y));
        assert(in_run(t, r, c - left, 0, y - base));
        let i = c - left;
        assert(0 <= i < 4);
        if i == 0 {
        } else if i == 1 {
        } else if i == 2 {
        } else {
        }
    }
}

/// Dropping a piece onto a matrix with no filled row above an empty one
/// leaves no filled row above an empty one.
pub proof fn lemma_placed_stacked(m: Seq<u16>, t: int, r: nat, left: int)
    requires
        m.len() == 40,
        0 <= t < 7,
        r < 4,
        stacked(m),
        forall|i: int| 0 <= i < 4 && !#[trigger] col_empty(t, r, i) ==> 0 <= left + i < 10,
    ensures
        stacked(drop_placed(m, t, r, left)),
{
    let base = rest_base(m, t, r, left, 4);
    let m1 = drop_placed(m, t, r, left);
    assert forall|i: int|
        0 <= i < 4 && !#[trigger] col_empty(t, r, i) implies rheight(m, left + i) - first_below(t, r, i, 4) <= 40 by {
        lemma_first_below_props(t, r, i, 4);
        lemma_rheight_range(m, left + i);
    }
    crate::common::computed::lemma_middle_column_filled(t, r);
    let i0: int = if crate::common::computed::shape_cell(t, r, 1, 1) {
        crate::common::computed::lemma_first_below_found(t, r, 1, 1, 4);
        1
    } else if crate::common::computed::shape_cell(t, r, 2, 0) {
        crate::common::computed::lemma_first_below_found(t, r, 2, 0, 4);
        2
    } else if crate::common::computed::shape_cell(t, r, 1, 0) {
        crate::common::computed::lemma_first_below_found(t, r, 1, 0, 4);
        1
    } else {
        crate::common::computed::lemma_first_below_found(t, r, 1, 2, 4);
        1
    };
    assert(!col_empty(t, r, i0));
    lemma_rest_base(m, t, r, left, 4, 40);
    let cs = choose|i: int|
        0 <= i < 4 && !#[trigger] col_empty(t, r, i) && base == rheight(m, left + i) - first_below(t, r, i, 4);
    let lo = first_below(t, r, cs, 4);
    let hs = rheight(m, left + cs);
    lemma_first_below_props(t, r, cs, 4);
    lemma_count_below_bound(t, r, cs, 4);
    lemma_rheight_range(m, left + cs);
    assert(in_run(t, r, cs, 0, lo));
    assert(covered(t, r, hs - base));
    // Every row under the resting column's top is filled.
    assert forall|y: int| 0 <= y < hs implies m[y] != 0 by {
        lemma_height_props(m, left + cs, 40);
        assert(cell(m, left + cs, hs - 1));
        if m[hs - 1] == 0 {
            lemma_zero_has_no_bit((left + cs) as u16);
        }
        if m[y] == 0 {
            assert(m[hs - 1] == 0);
        }
    }
    lemma_rows_convex(t, r);
    assert forall|y1: int, y2: int| 0 <= y1 < y2 < m1.len() && #[trigger] m1[y1] == 0 implies #[trigger] m1[y2] == 0 by {
        let rb1 = run_bits(t, r, left, base, y1, 4);
        let rb2 = run_bits(t, r, left, base, y2, 4);
        lemma_placed_row_zero(m[y1], rb1);
        lemma_placed_row_zero(m[y2], rb2);
        lemma_run_bits_zero(t, r, left, base, y1);
        lemma_run_bits_zero(t, r, left, base, y2);
        assert(m[y1] == 0 && rb1 == 0);
        assert(m[y2] == 0);
        if rb2 != 0 {
            assert(covered(t, r, y2 - base));
            assert(y2 - base < 4) by {
                if in_run(t, r, 0, 0, y2 - base) {
                    lemma_count_below_bound(t, r, 0, 4);
                } else if in_run(t, r, 1, 0, y2 - base) {
                    lemma_count_below_bound(t, r, 1, 4);
                } else if in_run(t, r, 2, 0, y2 - base) {
                    lemma_count_below_bound(t, r, 2, 4);
                } else {
                    lemma_count_below_bound(t, r, 3, 4);
                }
            }
            assert(!covered(t, r, y1 - base));
            assert(y1 >= hs);
            assert(y1 - base > hs - base);
            assert(covered(t, r, y1 - base));
        }
    }
}

} // verus!

//! The playfield: one 16-bit row per line, bit `x` for column `x`, with
//! the height and the number of holes of every column kept beside it.
use vstd::prelude::*;
use crate::common::computed::{bit_row, bit_shape_matches};
use crate::common::piece::Piece;
use crate::bits::{
    has_bit,
    lemma_bit_or_single,
    lemma_bit_clear_single,
    lemma_bit_noop,
    lemma_bit_or,
    lemma_bit_and,
    lemma_bits_equal,
    lemma_zero_has_no_bit,
};

verus! {

/// The cell at column `x`, row `y` of matrix `m` is filled.
pub open spec fn cell(m: Seq<u16>, x: int, y: int) -> bool {
    has_bit(m[y], x)
}

/// One more than the highest filled row of column `x` among rows `0..n`,
/// or 0 when none of them is filled.
pub open spec fn height_below(m: Seq<u16>, x: int, n: nat) -> int
    decreases n,
{
    if n == 0 {
        0
    } else if cell(m, x, n - 1) {
        n as int
    } else {
        height_below(m, x, (n - 1) as nat)
    }
}

/// The height of column `x`: one more than its highest filled row.
pub open spec fn col_height(m: Seq<u16>, x: int) -> int {
    height_below(m, x, 24)
}

/// Number of empty cells of column `x` among rows `lo..hi`.
pub open spec fn holes_between(m: Seq<u16>, x: int, lo: int, hi: int) -> int
    decreases hi - lo,
{
    if lo >= hi {
        0
    } else {
        (if cell(m, x, lo) {
            0int
        } else {
            1int
        }) + holes_between(m, x, lo + 1, hi)
    }
}

/// The holes of column `x`: its empty cells below its highest filled cell.
pub open spec fn col_holes(m: Seq<u16>, x: int) -> int {
    holes_between(m, x, 0, col_height(m, x))
}

/// Columns `x` of `m1` and `m2` agree on rows `lo..hi`.
pub open spec fn same_column(m1: Seq<u16>, m2: Seq<u16>, x: int, lo: int, hi: int) -> bool {
    forall|y: int| lo <= y < hi ==> cell(m1, x, y) == cell(m2, x, y)
}

/// Column `x` of `m` is empty on rows `lo..hi`.
pub open spec fn empty_rows(m: Seq<u16>, x: int, lo: int, hi: int) -> bool {
    forall|y: int| lo <= y < hi ==> !cell(m, x, y)
}

/// A column's height below row `n` is at most `n`, its top cell is filled
/// and every cell above it is empty.
pub proof fn lemma_height_props(m: Seq<u16>, x: int, n: nat)
    ensures
        0 <= height_below(m, x, n) <= n,
        height_below(m, x, n) > 0 ==> cell(m, x, height_below(m, x, n) - 1),
        empty_rows(m, x, height_below(m, x, n), n as int),
    decreases n,
{
    if n > 0 {
        lemma_height_props(m, x, (n - 1) as nat);
    }
}

/// Empty rows on top of a column do not change its height.
pub proof fn lemma_height_skip_empty(m: Seq<u16>, x: int, k: nat, n: nat)
    requires
        k <= n,
        empty_rows(m, x, k as int, n as int),
    ensures
        height_below(m, x, n) == height_below(m, x, k),
    decreases n,
{
    if n > k {
        lemma_height_skip_empty(m, x, k, (n - 1) as nat);
    }
}

/// A filled cell under only empty ones gives the column's height.
pub proof fn lemma_height_exact(m: Seq<u16>, x: int, h: nat, n: nat)
    requires
        h <= n,
        h > 0 ==> cell(m, x, h - 1),
        empty_rows(m, x, h as int, n as int),
    ensures
        height_below(m, x, n) == h,
{
    lemma_height_skip_empty(m, x, h, n);
}

/// Two matrices with the same cells in a column give it the same height.
pub proof fn lemma_height_same_column(m1: Seq<u16>, m2: Seq<u16>, x: int, n: nat)
    requires
        same_column(m1, m2, x, 0, n as int),
    ensures
        height_below(m1, x, n) == height_below(m2, x, n),
    decreases n,
{
    if n > 0 {
        lemma_height_same_column(m1, m2, x, (n - 1) as nat);
    }
}

/// The empty cells of a column between two rows add up over a split.
pub proof fn lemma_holes_split(m: Seq<u16>, x: int, lo: int, mid: int, hi: int)
    requires
        lo <= mid <= hi,
    ensures
        holes_between(m, x, lo, hi) == holes_between(m, x, lo, mid) + holes_between(m, x, mid, hi),
    decreases mid - lo,
{
    if lo < mid {
        lemma_holes_split(m, x, lo + 1, mid, hi);
    }
}

/// Every cell of an empty run counts.
pub proof fn lemma_holes_empty(m: Seq<u16>, x: int, lo: int, hi: int)
    requires
        lo <= hi,
        empty_rows(m, x, lo, hi),
    ensures
        holes_between(m, x, lo, hi) == hi - lo,
    decreases hi - lo,
{
    if lo < hi {
        lemma_holes_empty(m, x, lo + 1, hi);
    }
}

/// A run of rows has at most as many empty cells as rows.
pub proof fn lemma_holes_range(m: Seq<u16>, x: int, lo: int, hi: int)
    requires
        lo <= hi,
    ensures
        0 <= holes_between(m, x, lo, hi) <= hi - lo,
    decreases hi - lo,
{
    if lo < hi {
        lemma_holes_range(m, x, lo + 1, hi);
    }
}

/// Two matrices with the same cells in a column have the same empty cells
/// there.
pub proof fn lemma_holes_same_column(m1: Seq<u16>, m2: Seq<u16>, x: int, lo: int, hi: int)
    requires
        same_column(m1, m2, x, lo, hi),
    ensures
        holes_between(m1, x, lo, hi) == holes_between(m2, x, lo, hi),
    decreases hi - lo,
{
    if lo < hi {
        lemma_holes_same_column(m1, m2, x, lo + 1, hi);
    }
}

/// A run of filled cells has no empty cell.
pub proof fn lemma_holes_none(m: Seq<u16>, x: int, lo: int, hi: int)
    requires
        forall|y: int| lo <= y < hi ==> cell(m, x, y),
    ensures
        holes_between(m, x, lo, hi) == 0,
    decreases hi - lo,
{
    if lo < hi {
        lemma_holes_none(m, x, lo + 1, hi);
    }
}

/// A sequence with no full row is its own `non_full`.
pub proof fn lemma_non_full_same(s: Seq<u16>)
    requires
        non_full(s).len() == s.len(),
    ensures
        non_full(s) == s,
    decreases s.len(),
{
    if s.len() > 0 {
        lemma_non_full_len(s.drop_first());
        if s[0] == 1023 {
            assert(false);
        } else {
            lemma_non_full_same(s.drop_first());
            assert(s =~= seq![s[0]] + s.drop_first());
        }
    }
}

/// Two matrices that agree on column `x` give it the same height and holes.
pub proof fn lemma_metadata_same_column(m1: Seq<u16>, m2: Seq<u16>, x: int)
    requires
        same_column(m1, m2, x, 0, 24),
    ensures
        col_height(m1, x) == col_height(m2, x),
        col_holes(m1, x) == col_holes(m2, x),
{
    lemma_height_same_column(m1, m2, x, 24);
    lemma_height_props(m1, x, 24);
    lemma_holes_same_column(m1, m2, x, 0, col_height(m1, x));
}

/// Every column's height is at most the board's and its holes fit below it.
pub proof fn lemma_metadata_range(m: Seq<u16>, x: int)
    ensures
        0 <= col_height(m, x) <= 24,
        0 <= col_holes(m, x) <= col_height(m, x),
{
    lemma_height_props(m, x, 24);
    lemma_holes_range(m, x, 0, col_height(m, x));
}

/// A shape of type `t`, orientation `r`, whose box's lower left corner is at
/// `(x, y)`, overlaps a filled cell of `m`.
pub open spec fn collides(m: Seq<u16>, t: int, r: nat, x: int, y: int) -> bool {
    exists|j: int| 0 <= j < 4 && 0 <= y + j < 24 && #[trigger] (bit_row(t, r, x, j) & m[y + j]) != 0
}

/// `m` with the cells of a shape of type `t`, orientation `r`, box corner at
/// `(x, y)`, filled in.
pub open spec fn placed(m: Seq<u16>, t: int, r: nat, x: int, y: int) -> Seq<u16> {
    Seq::new(
        m.len(),
        |yy: int|
            if 0 <= yy - y < 4 {
                m[yy] | bit_row(t, r, x, yy - y)
            } else {
                m[yy]
            },
    )
}

/// The rows of `s` that are not full, in order.
pub open spec fn non_full(s: Seq<u16>) -> Seq<u16>
    decreases s.len(),
{
    if s.len() == 0 {
        seq![]
    } else {
        let rest = non_full(s.drop_first());
        if s[0] == 1023 {
            rest
        } else {
            seq![s[0]] + rest
        }
    }
}

/// `s` after its full rows are removed and the rows above them moved down,
/// with empty rows coming in at the top.
pub open spec fn cleared(s: Seq<u16>) -> Seq<u16> {
    non_full(s) + Seq::new((s.len() - non_full(s).len()) as nat, |i: int| 0u16)
}

/// Number of full rows of `s`.
pub open spec fn full_rows(s: Seq<u16>) -> int {
    s.len() - non_full(s).len()
}

/// Removing the full rows never lengthens the matrix.
pub proof fn lemma_non_full_len(s: Seq<u16>)
    ensures
        non_full(s).len() <= s.len(),
    decreases s.len(),
{
    if s.len() > 0 {
        lemma_non_full_len(s.drop_first());
    }
}

/// Result of locking a piece into the board.
#[derive(Debug)]
pub struct BoardLockResult {
    pub top_out: bool,
    pub lines_cleared: i32,
}

/// The playfield.  `matrix[y]` holds row `y`, bit `x` for column `x`;
/// `height_map` and `holes` describe every column of `matrix`.
#[derive(Clone, Debug, Eq)]
pub struct Board {
    pub matrix: [u16; 24],
    pub height_map: [i8; 10],
    pub holes: [i8; 10],
}

// Only the matrix is hashed, as only the matrix is compared.
impl core::hash::Hash for Board {
    fn hash<H: core::hash::Hasher>(&self, state: &mut H) {
        let mut y: usize = 0;
        while y < 24
            decreases 24 - y,
        {
            (self.matrix[y] as u64).hash(state);
            y += 1;
        }
    }
}

impl Board {
    /// The metadata of column `x` describes the matrix.
    pub open spec fn col_wf(&self, x: int) -> bool {
        &&& self.height_map[x] == col_height(self.matrix@, x)
        &&& self.holes[x] == col_holes(self.matrix@, x)
    }

    /// The metadata of every column describes the matrix.
    pub open spec fn wf(&self) -> bool {
        forall|x: int| 0 <= x < 10 ==> #[trigger] self.col_wf(x)
    }

    /// An empty board.
    pub fn new() -> (board: Self)
        ensures
            board.wf(),
            forall|y: int| 0 <= y < 24 ==> board.matrix[y] == 0,
    {
        let board = Board { matrix: [0; 24], height_map: [0; 10], holes: [0; 10] };
        assert forall|x: int| 0 <= x < 10 implies #[trigger] board.col_wf(x) by {
            assert forall|y: int| 0 <= y < 24 implies !cell(board.matrix@, x, y) by {
                lemma_zero_has_no_bit(x as u16);
            }
            lemma_height_exact(board.matrix@, x, 0, 24);
        }
        board
    }

    /// The cell at column `x`, row `y` is filled.
    pub fn get(&self, x: i32, y: i32) -> (filled: bool)
        requires
            0 <= x < 16,
            0 <= y < 24,
        ensures
            filled == cell(self.matrix@, x as int, y as int),
    {
        self.matrix[y as usize] & (1u16 << (x as u16)) != 0
    }

    /// Recomputes the height and holes of column `col` from the matrix.
    pub fn recalculate_metadata(&mut self, col: i32)
        requires
            0 <= col < 10,
        ensures
            final(self).matrix == old(self).matrix,
            final(self).col_wf(col as int),
            forall|x: int|
                0 <= x < 10 && x != col ==> final(self).height_map[x] == old(self).height_map[x]
                    && final(self).holes[x] == old(self).holes[x],
    {
        let ghost m = self.matrix@;
        let ghost x = col as int;
        let mut encountered = false;
        let mut height: i8 = 0;
        let mut holes: i8 = 0;
        let mut j: i32 = 24;
        while j > 0
            invariant
                0 <= col < 10,
                x == col,
                m == self.matrix@,
                0 <= j <= 24,
                !encountered ==> height == 0 && holes == 0 && empty_rows(m, x, j as int, 24),
                encountered ==> height == col_height(m, x) && j < height <= 24 && holes
                    == holes_between(m, x, j as int, height as int),
            decreases j,
        {
            j -= 1;
            if self.get(col, j) {
                if !encountered {
                    encountered = true;
                    height = (j + 1) as i8;
                    proof {
                        lemma_height_exact(m, x, (j + 1) as nat, 24);
                    }
                }
            } else {
                if encountered {
                    proof {
                        lemma_holes_range(m, x, j + 1, height as int);
                    }
                    holes += 1;
                }
            }
        }
        proof {
            if !encountered {
                lemma_height_exact(m, x, 0, 24);
            }
        }
        self.height_map[col as usize] = height;
        self.holes[col as usize] = holes;
    }

    /// The piece overlaps a filled cell of the board.
    pub fn intersects_with(&self, piece: &Piece) -> (hit: bool)
        requires
            0 <= piece.rotation < 4,
            -2 <= piece.location.0 <= 8,
        ensures
            hit == collides(
                self.matrix@,
                piece.piece_type.index(),
                piece.rotation as nat,
                piece.location.0 as int,
                piece.location.1 as int,
            ),
    {
        let p_y = piece.location.1 as i32;
        let shape = piece.get_bit_shape(None, None);
        let mut j: i32 = 0;
        while j < 4
            invariant
                0 <= j <= 4,
                p_y == piece.location.1,
                bit_shape_matches(
                    shape,
                    piece.piece_type.index(),
                    piece.rotation as nat,
                    piece.location.0 as int,
                ),
                forall|k: int|
                    0 <= k < j && 0 <= p_y + k < 24 ==> #[trigger] (bit_row(
                        piece.piece_type.index(),
                        piece.rotation as nat,
                        piece.location.0 as int,
                        k,
                    ) & self.matrix@[p_y + k]) == 0,
            decreases 4 - j,
        {
            if p_y + j < 0 || p_y + j >= 24 {
                j += 1;
                continue;
            }
            let row = self.matrix[(p_y + j) as usize];
            if shape[j as usize] & row != 0 {
                assert((bit_row(
                    piece.piece_type.index(),
                    piece.rotation as nat,
                    piece.location.0 as int,
                    j as int,
                ) & self.matrix@[p_y + j]) != 0);
                return true;
            }
            j += 1;
        }
        false
    }

    /// Fills (`state`) or empties the cell at column `x`, row `y`, and keeps
    /// the column's metadata up to date.
    pub fn set(&mut self, x: i32, y: i32, state: bool)
        requires
            old(self).wf(),
            0 <= x < 10,
            0 <= y < 24,
        ensures
            final(self).wf(),
            final(self).matrix@ == old(self).matrix@.update(
                y as int,
                if state {
                    old(self).matrix[y as int] | (1u16 << (x as u16))
                } else {
                    old(self).matrix[y as int] & !(1u16 << (x as u16))
                },
            ),
    {
        let ghost m0 = self.matrix@;
        let ghost b0 = *self;
        let ghost xi = x as int;
        let ghost yi = y as int;
        let ghost new_row = if state {
            m0[yi] | (1u16 << (x as u16))
        } else {
            m0[yi] & !(1u16 << (x as u16))
        };
        let ghost m1 = m0.update(yi, new_row);
        proof {
            // Only column x of row y changes.
            assert forall|c: int, yy: int| 0 <= c < 16 && 0 <= yy < 24 implies cell(m1, c, yy) == if c
                == xi && yy == yi {
                state
            } else {
                cell(m0, c, yy)
            } by {
                if yy == yi {
                    if state {
                        lemma_bit_or_single(m0[yi], x as u16, c as u16);
                    } else {
                        lemma_bit_clear_single(m0[yi], x as u16, c as u16);
                    }
                }
            }
            assert forall|c: int| 0 <= c < 10 && c != xi implies #[trigger] same_column(m0, m1, c, 0, 24) by {
                assert forall|yy: int| 0 <= yy < 24 implies cell(m0, c, yy) == cell(m1, c, yy) by {
                    assert(cell(m1, c, yy) == cell(m0, c, yy));
                }
            }
            assert(b0.col_wf(xi));
            lemma_metadata_range(m0, xi);
            lemma_height_props(m0, xi, 24);
            lemma_holes_range(m0, xi, 0, col_height(m0, xi));
        }
        if self.get(x, y) == state {
            proof {
                lemma_bit_noop(m0[yi], x as u16);
                assert(m1 =~= m0);
            }
            return;
        }
        let x = x as i8;
        let y = y as i8;
        let ghost h = col_height(m0, xi);
        if state {
            // Turn on bit
            self.matrix[y as usize] = self.matrix[y as usize] | (1u16 << (x as u16));
            assert(self.matrix@ =~= m1);
            if y >= self.height_map[x as usize] {
                // Above height - add holes if necessary
                self.holes[x as usize] = self.holes[x as usize] + (y - self.height_map[x as usize]);
                self.height_map[x as usize] = y + 1;
                proof {
                    assert(empty_rows(m1, xi, yi + 1, 24));
                    lemma_height_exact(m1, xi, (yi + 1) as nat, 24);
                    lemma_holes_split(m1, xi, 0, h, yi + 1);
                    lemma_holes_split(m1, xi, h, yi, yi + 1);
                    assert(same_column(m0, m1, xi, 0, h));
                    lemma_holes_same_column(m0, m1, xi, 0, h);
                    assert(empty_rows(m1, xi, h, yi));
                    lemma_holes_empty(m1, xi, h, yi);
                    assert(holes_between(m1, xi, yi + 1, yi + 1) == 0);
                }
            } else {
                // Below height (must be a hole that was removed)
                self.holes[x as usize] = self.holes[x as usize] - 1;
                proof {
                    assert(cell(m1, xi, h - 1));
                    assert(empty_rows(m1, xi, h, 24));
                    lemma_height_exact(m1, xi, h as nat, 24);
                    lemma_holes_split(m0, xi, 0, yi, h);
                    lemma_holes_split(m0, xi, yi, yi + 1, h);
                    lemma_holes_split(m1, xi, 0, yi, h);
                    lemma_holes_split(m1, xi, yi, yi + 1, h);
                    assert(same_column(m0, m1, xi, 0, yi));
                    assert(same_column(m0, m1, xi, yi + 1, h));
                    lemma_holes_same_column(m0, m1, xi, 0, yi);
                    lemma_holes_same_column(m0, m1, xi, yi + 1, h);
                    assert(holes_between(m1, xi, yi + 2, yi + 1) == 0);
                    assert(holes_between(m0, xi, yi + 2, yi + 1) == 0);
                }
            }
        } else {
            // Turn off bit
            self.matrix[y as usize] = self.matrix[y as usize] & !(1u16 << (x as u16));
            assert(self.matrix@ =~= m1);
            if self.height_map[x as usize] == y + 1 {
                // Top hole was turned off
                // Keep looping down until hole is found
                proof {
                    lemma_holes_split(m0, xi, 0, yi, yi + 1);
                    assert(holes_between(m0, xi, yi + 1, yi + 1) == 0);
                    assert(empty_rows(m1, xi, yi, 24));
                    assert(same_column(m0, m1, xi, 0, yi));
                }
                loop
                    invariant_except_break
                        1 <= self.height_map[x as int] <= y + 1,
                        empty_rows(m1, xi, self.height_map[x as int] - 1, 24),
                        self.holes[x as int] == holes_between(m0, xi, 0, yi) - (yi - (
                        self.height_map[x as int] - 1)),
                    invariant
                        0 <= x < 10,
                        0 <= y < 24,
                        xi == x,
                        yi == y,
                        self.matrix@ == m1,
                        m1.len() == 24,
                        same_column(m0, m1, xi, 0, yi),
                        forall|c: int|
                            0 <= c < 10 && c != xi ==> self.height_map[c] == b0.height_map[c]
                                && self.holes[c] == b0.holes[c],
                    ensures
                        0 <= self.height_map[x as int] <= y,
                        self.height_map[x as int] == 0 || cell(m1, xi, self.height_map[x as int] - 1),
                        empty_rows(m1, xi, self.height_map[x as int] as int, 24),
                        self.holes[x as int] == holes_between(m0, xi, 0, yi) - (yi
                            - self.height_map[x as int]),
                        forall|c: int|
                            0 <= c < 10 && c != xi ==> self.height_map[c] == b0.height_map[c]
                                && self.holes[c] == b0.holes[c],
                    decreases self.height_map[x as int],
                {
                    self.height_map[x as usize] = self.height_map[x as usize] - 1;
                    if self.height_map[x as usize] == 0 || self.get(
                        x as i32,
                        (self.height_map[x as usize] - 1) as i32,
                    ) {
                        break;
                    }
                    proof {
                        lemma_holes_same_column(m0, m1, xi, 0, yi);
                        lemma_holes_split(m1, xi, 0, self.height_map[x as int] as int, yi);
                        lemma_holes_range(m1, xi, 0, self.height_map[x as int] as int);
                        lemma_holes_empty(m1, xi, self.height_map[x as int] as int, yi);
                    }
                    self.holes[x as usize] = self.holes[x as usize] - 1;
                }
                proof {
                    let h1 = self.height_map[x as int] as int;
                    lemma_height_exact(m1, xi, h1 as nat, 24);
                    assert(same_column(m0, m1, xi, 0, yi));
                    lemma_holes_same_column(m0, m1, xi, 0, yi);
                    lemma_holes_split(m1, xi, 0, h1, yi);
                    lemma_holes_empty(m1, xi, h1, yi);
                }
            } else {
                // Bit must be a hole
                self.holes[x as usize] = self.holes[x as usize] + 1;
                proof {
                    assert(yi < h - 1);
                    assert(cell(m1, xi, h - 1));
                    assert(empty_rows(m1, xi, h, 24));
                    lemma_height_exact(m1, xi, h as nat, 24);
                    lemma_holes_split(m0, xi, 0, yi, h);
                    lemma_holes_split(m0, xi, yi, yi + 1, h);
                    lemma_holes_split(m1, xi, 0, yi, h);
                    lemma_holes_split(m1, xi, yi, yi + 1, h);
                    assert(same_column(m0, m1, xi, 0, yi));
                    assert(same_column(m0, m1, xi, yi + 1, h));
                    lemma_holes_same_column(m0, m1, xi, 0, yi);
                    lemma_holes_same_column(m0, m1, xi, yi + 1, h);
                    assert(holes_between(m1, xi, yi + 2, yi + 1) == 0);
                    assert(holes_between(m0, xi, yi + 2, yi + 1) == 0);
                }
            }
        }
        proof {
            assert forall|c: int| 0 <= c < 10 implies #[trigger] self.col_wf(c) by {
                if c != xi {
                    assert(b0.col_wf(c));
                    assert(same_column(m0, m1, c, 0, 24));
                    lemma_metadata_same_column(m0, m1, c);
                }
            }
        }
    }

    /// Makes column `col` hold exactly its `height` lowest cells, with no
    /// holes.
    pub fn set_col(&mut self, col: i32, height: i32)
        requires
            0 <= col < 10,
        ensures
            forall|y: int|
                0 <= y < 24 ==> final(self).matrix[y] == if y < height {
                    old(self).matrix[y] | (1u16 << (col as u16))
                } else {
                    old(self).matrix[y] & !(1u16 << (col as u16))
                },
            forall|c: int, y: int|
                0 <= c < 16 && 0 <= y < 24 ==> cell(final(self).matrix@, c, y) == if c == col {
                    y < height
                } else {
                    cell(old(self).matrix@, c, y)
                },
            final(self).height_map[col as int] == height as i8,
            final(self).holes[col as int] == 0,
            forall|c: int|
                0 <= c < 10 && c != col ==> final(self).height_map[c] == old(self).height_map[c]
                    && final(self).holes[c] == old(self).holes[c],
            0 <= height <= 24 ==> final(self).col_wf(col as int),
            forall|c: int| 0 <= c < 10 && c != col && old(self).col_wf(c) ==> final(self).col_wf(c),
    {
        let mut i: i32 = 0;
        while i < 24
            invariant
                0 <= col < 10,
                0 <= i <= 24,
                self.height_map == old(self).height_map,
                self.holes == old(self).holes,
                forall|y: int|
                    0 <= y < i ==> self.matrix[y] == if y < height {
                        old(self).matrix[y] | (1u16 << (col as u16))
                    } else {
                        old(self).matrix[y] & !(1u16 << (col as u16))
                    },
                forall|y: int| i <= y < 24 ==> self.matrix[y] == old(self).matrix[y],
            decreases 24 - i,
        {
            if i < height {
                self.matrix[i as usize] = self.matrix[i as usize] | (1u16 << (col as u16));
            } else {
                self.matrix[i as usize] = self.matrix[i as usize] & !(1u16 << (col as u16));
            }
            i += 1;
        }
        self.height_map[col as usize] = height as i8;
        self.holes[col as usize] = 0;
        proof {
            let m0 = old(self).matrix@;
            let m1 = self.matrix@;
            assert forall|c: int, y: int| 0 <= c < 16 && 0 <= y < 24 implies cell(m1, c, y) == if c
                == col {
                y < height
            } else {
                cell(m0, c, y)
            } by {
                if y < height {
                    lemma_bit_or_single(m0[y], col as u16, c as u16);
                } else {
                    lemma_bit_clear_single(m0[y], col as u16, c as u16);
                }
            }
            if 0 <= height <= 24 {
                let h = height as int;
                if h > 0 {
                    assert(cell(m1, col as int, h - 1));
                }
                assert(empty_rows(m1, col as int, h, 24));
                lemma_height_exact(m1, col as int, h as nat, 24);
                assert forall|y: int| 0 <= y < h implies cell(m1, col as int, y) by {}
                lemma_holes_none(m1, col as int, 0, h);
            }
            assert forall|c: int| 0 <= c < 10 && c != col && old(self).col_wf(c) implies self.col_wf(c) by {
                assert(same_column(m0, m1, c, 0, 24));
                lemma_metadata_same_column(m0, m1, c);
            }
        }
    }

    /// Makes every column hold exactly its given number of lowest cells.
    pub fn set_cols(&mut self, heights: [i32; 10])
        ensures
            forall|c: int, y: int|
                0 <= c < 16 && 0 <= y < 24 ==> cell(final(self).matrix@, c, y) == if c < 10 {
                    y < heights[c]
                } else {
                    cell(old(self).matrix@, c, y)
                },
            forall|c: int|
                0 <= c < 10 ==> final(self).height_map[c] == heights[c] as i8 && final(self).holes[c]
                    == 0,
            (forall|c: int| 0 <= c < 10 ==> 0 <= #[trigger] heights[c] <= 24) ==> final(self).wf(),
    {
        let mut i: i32 = 0;
        while i < 10
            invariant
                0 <= i <= 10,
                forall|c: int, y: int|
                    0 <= c < 16 && 0 <= y < 24 ==> cell(self.matrix@, c, y) == if c < i {
                        y < heights[c]
                    } else {
                        cell(old(self).matrix@, c, y)
                    },
                forall|c: int|
                    0 <= c < i ==> self.height_map[c] == heights[c] as i8 && self.holes[c] == 0,
                forall|c: int|
                    0 <= c < i && 0 <= heights[c] <= 24 ==> #[trigger] self.col_wf(c),
            decreases 10 - i,
        {
            self.set_col(i, heights[i as usize]);
            i += 1;
        }
    }

    /// Locks a piece into the board, clears the full rows and reports
    /// whether anything is left above the visible rows.
    pub fn lock(&mut self, piece: &Piece) -> (res: BoardLockResult)
        requires
            old(self).wf(),
            piece.wf(),
        ensures
            ({
                let m1 = placed(
                    old(self).matrix@,
                    piece.piece_type.index(),
                    piece.rotation as nat,
                    piece.location.0 as int,
                    piece.location.1 as int,
                );
                &&& final(self).matrix@ == cleared(m1)
                &&& res.lines_cleared == full_rows(m1)
                &&& res.top_out == exists|j: int| 20 <= j < 24 && cleared(m1)[j] != 0
            }),
            final(self).wf(),
    {
        let ghost m0 = self.matrix@;
        let ghost t = piece.piece_type.index();
        let ghost r = piece.rotation as nat;
        let (p_x, p_y) = piece.location;
        let ghost m1 = placed(m0, t, r, p_x as int, p_y as int);
        let shape = piece.get_bit_shape(None, None);
        let mut j: i32 = 0;
        while j < 4
            invariant
                0 <= j <= 4,
                self.height_map == old(self).height_map,
                self.holes == old(self).holes,
                bit_shape_matches(shape, t, r, p_x as int),
                m0.len() == 24,
                m1 == placed(m0, t, r, p_x as int, p_y as int),
                forall|yy: int|
                    0 <= yy < 24 ==> self.matrix@[yy] == if 0 <= yy - p_y < j {
                        m1[yy]
                    } else {
                        m0[yy]
                    },
            decreases 4 - j,
        {
            let y = (p_y as i32) + j;
            if y < 0 || y >= 24 {
                j += 1;
                continue;
            }
            self.matrix[y as usize] = self.matrix[y as usize] | shape[j as usize];
            j += 1;
        }
        assert(self.matrix@ =~= m1);

        let mut lines_cleared: Vec<i32> = Vec::new();
        let mut j: i32 = 24;
        while j > 0
            invariant
                0 <= j <= 24,
                self.height_map == old(self).height_map,
                self.holes == old(self).holes,
                m1.len() == 24,
                self.matrix@.subrange(0, j as int) == m1.subrange(0, j as int),
                self.matrix@.subrange(j as int, 24) == cleared(m1.subrange(j as int, 24)),
                lines_cleared@.len() == full_rows(m1.subrange(j as int, 24)),
            decreases j,
        {
            j -= 1;
            let ghost cur = self.matrix@;
            let ghost rest = m1.subrange(j + 1, 24);
            let ghost here = m1.subrange(j as int, 24);
            proof {
                assert(here.drop_first() =~= rest);
                assert(here[0] == m1[j as int]);
                assert(cur[j as int] == cur.subrange(0, j + 1)[j as int]);
                lemma_non_full_len(rest);
                lemma_non_full_len(here);
            }
            if self.matrix[j as usize] == 1023 {
                lines_cleared.push(j);
                let mut y: i32 = j;
                while y < 24
                    invariant
                        0 <= j <= y <= 24,
                        self.height_map == old(self).height_map,
                        self.holes == old(self).holes,
                        forall|k: int| 0 <= k < j ==> self.matrix@[k] == cur[k],
                        forall|k: int| j <= k < y ==> self.matrix@[k] == if k == 23 {
                            0u16
                        } else {
                            cur[k + 1]
                        },
                        forall|k: int| y <= k < 24 ==> self.matrix@[k] == cur[k],
                        self.matrix@.len() == 24,
                        cur.len() == 24,
                    decreases 24 - y,
                {
                    if y == 23 {
                        self.matrix[y as usize] = 0;
                    } else {
                        self.matrix[y as usize] = self.matrix[(y + 1) as usize];
                    }
                    y += 1;
                }
                proof {
                    assert(self.matrix@.subrange(0, j as int) =~= m1.subrange(0, j as int)) by {
                        assert(cur.subrange(0, j + 1).subrange(0, j as int) =~= cur.subrange(
                            0,
                            j as int,
                        ));
                        assert(m1.subrange(0, j + 1).subrange(0, j as int) =~= m1.subrange(
                            0,
                            j as int,
                        ));
                    }
                    assert(self.matrix@.subrange(j as int, 24) =~= cur.subrange(j + 1, 24).push(
                        0u16,
                    ));
                    assert(non_full(here) == non_full(rest));
                    assert(cleared(here) =~= cleared(rest).push(0u16));
                }
            } else {
                proof {
                    assert(self.matrix@.subrange(0, j as int) =~= m1.subrange(0, j as int)) by {
                        assert(cur.subrange(0, j + 1).subrange(0, j as int) =~= cur.subrange(
                            0,
                            j as int,
                        ));
                        assert(m1.subrange(0, j + 1).subrange(0, j as int) =~= m1.subrange(
                            0,
                            j as int,
                        ));
                    }
                    assert(non_full(here) == seq![m1[j as int]] + non_full(rest));
                    assert(cleared(here) =~= seq![m1[j as int]] + cleared(rest));
                    assert(self.matrix@.subrange(j as int, 24) =~= seq![m1[j as int]]
                        + self.matrix@.subrange(j + 1, 24));
                }
            }
        }
        assert(m1.subrange(0, 24) =~= m1);
        assert(self.matrix@.subrange(0, 24) =~= self.matrix@);
        let ghost m2 = self.matrix@;

        // Check for top-out
        let mut top_out = false;
        let mut j: i32 = 20;
        while j < 24 && !top_out
            invariant
                20 <= j <= 24,
                self.matrix@ == m2,
                self.height_map == old(self).height_map,
                self.holes == old(self).holes,
                m2.len() == 24,
                top_out == exists|k: int| 20 <= k < j && m2[k] != 0,
            decreases 24 - j,
        {
            if self.matrix[j as usize] != 0 {
                top_out = true;
            }
            j += 1;
        }
        assert(top_out == exists|k: int| 20 <= k < 24 && m2[k] != 0);

        // Recalculate metadata
        if lines_cleared.len() == 0 {
            proof {
                lemma_non_full_len(m1);
                lemma_non_full_same(m1);
                assert(m2 =~= m1);
                assert forall|c: int| 0 <= c < 10 && !(p_x <= c < p_x + 4) implies #[trigger] same_column(m0, m2, c, 0, 24) by {
                    assert forall|yy: int| 0 <= yy < 24 implies cell(m0, c, yy) == cell(m2, c, yy) by {
                        if 0 <= yy - p_y < 4 {
                            lemma_bit_or(m0[yy], bit_row(t, r, p_x as int, yy - p_y), c as u16);
                            crate::common::computed::lemma_bit_row_bit(t, r, p_x as int, yy - p_y, 4, c);
                        }
                    }
                }
                assert forall|c: int| 0 <= c < 10 && !(p_x <= c < p_x + 4) implies #[trigger] self.col_wf(c) by {
                    assert(old(self).col_wf(c));
                    assert(same_column(m0, m2, c, 0, 24));
                    lemma_metadata_same_column(m0, m2, c);
                }
                crate::common::computed::lemma_location_bounds_range(t, r);
            }
            let mut i: i32 = 0;
            while i < 4
                invariant
                    0 <= i <= 4,
                    self.matrix@ == m2,
                    -4 <= p_x <= 10,
                    forall|c: int|
                        0 <= c < 10 && !(p_x <= c < p_x + 4) ==> #[trigger] self.col_wf(c),
                    forall|c: int| 0 <= c < 10 && p_x <= c < p_x + i ==> #[trigger] self.col_wf(c),
                decreases 4 - i,
            {
                let x = i + (p_x as i32);
                let ghost before = *self;
                if x >= 0 && x < 10 {
                    self.recalculate_metadata(x);
                }
                assert forall|c: int| 0 <= c < 10 && c != x && before.col_wf(c) implies #[trigger] self.col_wf(c) by {}
                i += 1;
            }
        } else {
            let mut i: i32 = 0;
            while i < 10
                invariant
                    0 <= i <= 10,
                    self.matrix@ == m2,
                    forall|c: int| 0 <= c < i ==> #[trigger] self.col_wf(c),
                decreases 10 - i,
            {
                let ghost before = *self;
                self.recalculate_metadata(i);
                assert forall|c: int| 0 <= c < i + 1 implies #[trigger] self.col_wf(c) by {
                    if c < i {
                        assert(before.col_wf(c));
                    }
                }
                i += 1;
            }
        }

        BoardLockResult { lines_cleared: lines_cleared.len() as i32, top_out }
    }

    /// Replaces the matrix and recomputes every column's metadata.
    pub fn set_matrix(&mut self, matrix: [u16; 24])
        ensures
            final(self).matrix == matrix,
            final(self).wf(),
    {
        self.matrix = matrix;
        let mut i: i32 = 0;
        while i < 10
            invariant
                0 <= i <= 10,
                self.matrix == matrix,
                forall|x: int| 0 <= x < i ==> #[trigger] self.col_wf(x),
            decreases 10 - i,
        {
            let ghost before = *self;
            self.recalculate_metadata(i);
            assert forall|x: int| 0 <= x < i + 1 implies #[trigger] self.col_wf(x) by {
                if x < i {
                    assert(before.col_wf(x));
                }
            }
            i += 1;
        }
    }
}

// Only the matrix is compared: the other fields are metadata.
impl PartialEq for Board {
    fn eq(&self, other: &Self) -> (same: bool) {
        let mut j: usize = 0;
        while j < 24
            invariant
                j <= 24,
                forall|k: int| 0 <= k < j ==> self.matrix[k] == other.matrix[k],
            decreases 24 - j,
        {
            if self.matrix[j] != other.matrix[j] {
                return false;
            }
            j += 1;
        }
        assert(self.matrix@ =~= other.matrix@);
        true
    }
}

impl vstd::std_specs::cmp::PartialEqSpecImpl for Board {
    open spec fn obeys_eq_spec() -> bool {
        true
    }

    open spec fn eq_spec(&self, other: &Self) -> bool {
        self.matrix@ == other.matrix@
    }
}

} // verus!

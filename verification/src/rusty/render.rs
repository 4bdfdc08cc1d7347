//! The picture of the visible part of a board.
use vstd::prelude::*;
use crate::common::board::cell;
use crate::rusty::board::Board;

verus! {

/// The two characters of a cell: filled or empty.
pub open spec fn board_cell_text(m: Seq<u16>, x: int, y: int) -> Seq<char> {
    if cell(m, x, y) {
        "██"@
    } else {
        "░░"@
    }
}

/// The first `n` columns of row `y`.
pub open spec fn board_row_text(m: Seq<u16>, y: int, n: nat) -> Seq<char>
    decreases n,
{
    if n == 0 {
        Seq::empty()
    } else {
        board_row_text(m, y, (n - 1) as nat) + board_cell_text(m, n - 1, y)
    }
}

/// The top `k` of the twenty visible rows, the highest first, with a
/// newline after each row but the bottom one.
pub open spec fn board_rows_text(m: Seq<u16>, k: nat) -> Seq<char>
    decreases k,
{
    if k == 0 {
        Seq::empty()
    } else {
        let y = 20 - k;
        board_rows_text(m, (k - 1) as nat) + board_row_text(m, y, 10) + if y != 0 {
            "\n"@
        } else {
            Seq::empty()
        }
    }
}

impl Board {
    /// The twenty visible rows, the highest first, one line each.
    pub fn to_string(&self) -> (text: String)
        ensures
            text@ == board_rows_text(self.matrix@, 20),
    {
        let mut text = String::new();
        let mut y: i32 = 20;
        while y > 0
            invariant
                0 <= y <= 20,
                text@ == board_rows_text(self.matrix@, (20 - y) as nat),
            decreases y,
        {
            y -= 1;
            let ghost before = text@;
            let mut x: i32 = 0;
            while x < 10
                invariant
                    0 <= x <= 10,
                    0 <= y < 20,
                    text@ == before + board_row_text(self.matrix@, y as int, x as nat),
                decreases 10 - x,
            {
                if self.matrix[y as usize] & (1u16 << (x as u16)) != 0 {
                    text.append("██");
                } else {
                    text.append("░░");
                }
                x += 1;
            }
            if y != 0 {
                text.append("\n");
            }
        }
        text
    }
}

} // verus!

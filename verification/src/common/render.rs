//! The picture of a game: the board with the falling piece, the held
//! piece, the falling piece and the queue.
use vstd::prelude::*;
use crate::common::board::cell;
use crate::common::computed::{shape_cell, shape_matches};
use crate::common::game::Game;
use crate::common::misc::{nat_decimal, push_decimal};
use crate::common::piece::{Piece, PieceType, piece_char};

verus! {

/// The falling piece's 4x4 box covers column `i`, row `j`.
pub open spec fn in_piece_box(p: Piece, i: int, j: int) -> bool {
    &&& 0 <= i - p.location.0 < 4
    &&& 0 <= j - p.location.1 < 4
}

/// The two characters that show column `i`, row `j`: the falling piece, a
/// filled cell, an empty cell of the piece's box, or an empty cell.
pub open spec fn cell_text(g: Game, i: int, j: int) -> Seq<char> {
    let p = g.current_piece;
    if in_piece_box(p, i, j) && shape_cell(
        p.piece_type.index(),
        p.rotation as nat,
        i - p.location.0,
        j - p.location.1,
    ) {
        "██"@
    } else if cell(g.board.matrix@, i, j) {
        "▓▓"@
    } else if in_piece_box(p, i, j) {
        "▒▒"@
    } else {
        "░░"@
    }
}

/// The first `n` columns of row `j`.
pub open spec fn row_text(g: Game, j: int, n: nat) -> Seq<char>
    decreases n,
{
    if n == 0 {
        Seq::empty()
    } else {
        row_text(g, j, (n - 1) as nat) + cell_text(g, n - 1, j)
    }
}

/// The top `k` rows of the board, the highest first, each ended by a newline.
pub open spec fn rows_text(g: Game, k: nat) -> Seq<char>
    decreases k,
{
    if k == 0 {
        Seq::empty()
    } else {
        rows_text(g, (k - 1) as nat) + row_text(g, 24 - k, 10) + "\n"@
    }
}

/// The held piece and whether it can be swapped, or nothing.
pub open spec fn hold_text(g: Game) -> Seq<char> {
    match g.hold_piece {
        Some(t) => seq![piece_char(t.index())] + " "@ + if g.can_hold { "✓"@ } else { "✗"@ },
        None => Seq::empty(),
    }
}

/// The letters of the pieces, separated by spaces.
pub open spec fn queue_join(q: Seq<PieceType>) -> Seq<char>
    decreases q.len(),
{
    if q.len() == 0 {
        Seq::empty()
    } else if q.len() == 1 {
        seq![piece_char(q[0].index())]
    } else {
        queue_join(q.drop_last()) + " "@ + seq![piece_char(q.last().index())]
    }
}

/// The first seven pieces of the queue, and how many more there are.
pub open spec fn queue_text(q: Seq<PieceType>) -> Seq<char> {
    if q.len() > 7 {
        queue_join(q.take(7)) + " +"@ + nat_decimal((q.len() - 7) as nat)
    } else {
        queue_join(q)
    }
}

/// The picture of a game: the board with the falling piece, then the held
/// piece in brackets, the falling piece in parentheses and the queue.
pub open spec fn game_text(g: Game) -> Seq<char> {
    rows_text(g, 24) + "["@ + hold_text(g) + "] ("@ + seq![
        piece_char(g.current_piece.piece_type.index()),
    ] + ") "@ + queue_text(g.queue_pieces@)
}

impl Game {
    /// The picture of the game, as `game_text` draws it.
    pub fn to_string(&self) -> (text: String)
        requires
            0 <= self.current_piece.rotation < 4,
        ensures
            text@ == game_text(*self),
    {
        let piece = &self.current_piece;
        let shape = piece.get_shape(None);
        let p_x = piece.location.0 as i32;
        let p_y = piece.location.1 as i32;
        let mut text = String::new();
        let mut j: i32 = 24;
        while j > 0
            invariant
                0 <= j <= 24,
                text@ == rows_text(*self, (24 - j) as nat),
                shape_matches(shape, piece.piece_type.index(), piece.rotation as nat),
                *piece == self.current_piece,
                p_x == piece.location.0,
                p_y == piece.location.1,
            decreases j,
        {
            j -= 1;
            let ghost before = text@;
            let mut i: i32 = 0;
            while i < 10
                invariant
                    0 <= i <= 10,
                    0 <= j < 24,
                    text@ == before + row_text(*self, j as int, i as nat),
                    shape_matches(shape, piece.piece_type.index(), piece.rotation as nat),
                    *piece == self.current_piece,
                    p_x == piece.location.0,
                    p_y == piece.location.1,
                decreases 10 - i,
            {
                let in_bounds = i - p_x >= 0 && i - p_x < 4 && j - p_y >= 0 && j - p_y < 4;
                let in_piece = in_bounds && shape[(i - p_x) as usize][(j - p_y) as usize];
                if in_piece {
                    text.append("██");
                } else if self.board.get(i, j) {
                    text.append("▓▓");
                } else if in_bounds {
                    text.append("▒▒");
                } else {
                    text.append("░░");
                }
                i += 1;
            }
            text.append("\n");
        }
        text.append("[");
        match &self.hold_piece {
            Some(t) => {
                text.append(t.letter());
                text.append(" ");
                if self.can_hold {
                    text.append("✓");
                } else {
                    text.append("✗");
                }
            },
            None => {},
        }
        text.append("] (");
        text.append(piece.piece_type.letter());
        text.append(") ");
        let n = self.queue_pieces.len();
        let shown = if n > 7 { 7 } else { n };
        let ghost head = text@;
        let mut k: usize = 0;
        while k < shown
            invariant
                k <= shown <= n,
                n == self.queue_pieces@.len(),
                shown == if n > 7 { 7 } else { n },
                text@ == head + queue_join(self.queue_pieces@.take(k as int)),
            decreases shown - k,
        {
            if k > 0 {
                text.append(" ");
            }
            text.append(self.queue_pieces[k].letter());
            proof {
                let q = self.queue_pieces@.take(k + 1);
                assert(q.drop_last() =~= self.queue_pieces@.take(k as int));
                assert(q.last() == self.queue_pieces@[k as int]);
            }
            k += 1;
        }
        if n > 7 {
            text.append(" +");
            push_decimal(&mut text, n - 7);
        }
        proof {
            if n <= 7 {
                assert(self.queue_pieces@.take(n as int) =~= self.queue_pieces@);
            }
        }
        text
    }
}

} // verus!

//! Building a game from the fields of a JSON request.
use vstd::prelude::*;
use crate::bits::{has_bit, lemma_bit_or_single, lemma_zero_has_no_bit};
use crate::common::game::Game;
use crate::common::misc::{GenericErr, int_decimal, nat_decimal, push_decimal};
use crate::common::piece::{PieceType, piece_type_of, spawn_piece, step_down};

verus! {

/// The fields of a JSON request: the current piece, the held piece and the
/// queue as piece numbers, and the visible board as ten columns of cells,
/// bottom first.
pub struct JSONInput {
    pub current: i32,
    pub hold: Option<i32>,
    pub queue: Vec<i32>,
    pub matrix: Vec<Vec<bool>>,
}

/// The held piece number, as a sequence of zero or one numbers.
pub open spec fn hold_numbers(hold: Option<i32>) -> Seq<i32> {
    match hold {
        Some(h) => seq![h],
        None => Seq::empty(),
    }
}

/// Every piece number of a request, in the order they are read.
pub open spec fn input_pieces(input: JSONInput) -> Seq<i32> {
    seq![input.current] + hold_numbers(input.hold) + input.queue@
}

/// The first number of `s` that names no piece.
pub open spec fn first_invalid(s: Seq<i32>) -> Option<i32>
    decreases s.len(),
{
    if s.len() == 0 {
        None
    } else if !(0 <= s[0] < 7) {
        Some(s[0])
    } else {
        first_invalid(s.drop_first())
    }
}

/// The number of columns of a request's board.
pub open spec fn matrix_width(input: JSONInput) -> nat {
    input.matrix@.len()
}

/// The number of rows of a request's board as its error message gives it:
/// the length of its first column, or zero when there is none.
pub open spec fn matrix_height(input: JSONInput) -> nat {
    if input.matrix@.len() > 0 {
        input.matrix@[0]@.len()
    } else {
        0
    }
}

/// A board of ten columns of twenty cells each.
pub open spec fn matrix_dims_ok(input: JSONInput) -> bool {
    &&& matrix_width(input) == 10
    &&& forall|i: int| 0 <= i < 10 ==> (#[trigger] input.matrix@[i])@.len() == 20
}

/// `g` is the game a valid request describes.
pub open spec fn game_of_input(input: JSONInput, g: Game) -> bool {
    &&& g.wf()
    &&& g.current_piece == step_down(Seq::new(24, |i: int| 0u16), spawn_piece(piece_type_of(input.current as int)))
    &&& g.hold_piece == match input.hold {
        Some(h) => Some(piece_type_of(h as int)),
        None => None,
    }
    &&& g.queue_pieces@ == input.queue@.map_values(|v: i32| piece_type_of(v as int))
    &&& g.can_hold
    &&& forall|x: int, y: int|
        0 <= x < 16 && 0 <= y < 24 ==> #[trigger] has_bit(g.board.matrix[y], x) == (x < 10 && y
            < input.matrix@[x]@.len() && input.matrix@[x]@[y])
}

/// The first invalid number of a concatenation is that of its first part,
/// or else that of its second.
pub proof fn lemma_first_invalid_concat(a: Seq<i32>, b: Seq<i32>)
    ensures
        first_invalid(a + b) == match first_invalid(a) {
            Some(v) => Some(v),
            None => first_invalid(b),
        },
    decreases a.len(),
{
    if a.len() == 0 {
        assert(a + b =~= b);
    } else {
        assert((a + b).drop_first() =~= a.drop_first() + b);
        lemma_first_invalid_concat(a.drop_first(), b);
    }
}

/// A piece type's number names it back.
pub proof fn lemma_piece_type_of_index(p: PieceType)
    ensures
        piece_type_of(p.index()) == p,
{
    match p {
        PieceType::O => {},
        PieceType::I => {},
        PieceType::T => {},
        PieceType::L => {},
        PieceType::J => {},
        PieceType::S => {},
        PieceType::Z => {},
    }
}

proof fn lemma_first_invalid_single(v: i32)
    ensures
        first_invalid(seq![v]) == if 0 <= v < 7 {
            None
        } else {
            Some(v)
        },
{
    assert(seq![v].drop_first() =~= Seq::<i32>::empty());
    assert(seq![v][0] == v);
    reveal_with_fuel(first_invalid, 2);
}

fn try_parse_piece(num: i32) -> (res: Result<PieceType, GenericErr>)
    ensures
        0 <= num < 7 ==> (res matches Ok(p) && p == piece_type_of(num as int)),
        !(0 <= num < 7) ==> (res matches Err(e) && e.0@ == "Error parsing JSON: Invalid PieceType #"@
            + int_decimal(num as int)),
{
    match PieceType::from_i32(num) {
        Ok(p) => {
            proof {
                lemma_piece_type_of_index(p);
            }
            Ok(p)
        },
        Err(err) => {
            let mut text = String::from_str("Error parsing JSON: ");
            text.append(err.0.as_str());
            proof {
                reveal_strlit("Error parsing JSON: ");
                reveal_strlit("Invalid PieceType #");
                reveal_strlit("Error parsing JSON: Invalid PieceType #");
                assert(text@ =~= "Error parsing JSON: Invalid PieceType #"@ + int_decimal(num as int));
            }
            Err(GenericErr::new(text))
        },
    }
}

/// The game that a request describes: its pieces, with the falling piece
/// put at its spawn location on an empty board, and its board.  A number
/// that names no piece, and a board that is not ten columns of twenty
/// cells, are refused with a message.
pub fn game_from_input(input: JSONInput) -> (res: Result<Game, GenericErr>)
    ensures
        first_invalid(input_pieces(input)) matches Some(v) ==> (res matches Err(e) && e.0@
            == "Error parsing JSON: Invalid PieceType #"@ + int_decimal(v as int)),
        first_invalid(input_pieces(input)) is None && !matrix_dims_ok(input) ==> (res matches Err(e)
            && e.0@ == "Error parsing JSON: Invalid matrix dimensions "@ + nat_decimal(matrix_width(input))
            + "x"@ + nat_decimal(matrix_height(input))),
        first_invalid(input_pieces(input)) is None && matrix_dims_ok(input) ==> (res matches Ok(g)
            && game_of_input(input, g)),
{
    let ghost all = input_pieces(input);
    proof {
        lemma_first_invalid_concat(seq![input.current], hold_numbers(input.hold) + input.queue@);
        lemma_first_invalid_concat(hold_numbers(input.hold), input.queue@);
        assert(all =~= seq![input.current] + (hold_numbers(input.hold) + input.queue@));
        lemma_first_invalid_single(input.current);
        if input.hold is Some {
            lemma_first_invalid_single(input.hold->0);
        } else {
            assert(first_invalid(hold_numbers(input.hold)) is None);
        }
    }
    let current = match try_parse_piece(input.current) {
        Ok(p) => p,
        Err(e) => return Err(e),
    };
    let hold = match input.hold {
        Some(p) => match try_parse_piece(p) {
            Ok(t) => Some(t),
            Err(e) => return Err(e),
        },
        None => None,
    };
    let mut queue: Vec<PieceType> = Vec::new();
    let mut k: usize = 0;
    while k < input.queue.len()
        invariant
            0 <= k <= input.queue@.len(),
            first_invalid(input.queue@.take(k as int)) is None,
            first_invalid(input_pieces(input)) == first_invalid(input.queue@),
            queue@ == input.queue@.take(k as int).map_values(|v: i32| piece_type_of(v as int)),
        decreases input.queue@.len() - k,
    {
        let num = input.queue[k];
        proof {
            assert(input.queue@.take(k + 1) =~= input.queue@.take(k as int) + seq![num]);
            lemma_first_invalid_concat(input.queue@.take(k as int), seq![num]);
            lemma_first_invalid_concat(input.queue@.take(k as int), input.queue@.skip(k as int));
            assert(input.queue@ =~= input.queue@.take(k as int) + input.queue@.skip(k as int));
            lemma_first_invalid_concat(seq![num], input.queue@.skip(k + 1));
            assert(input.queue@.skip(k as int) =~= seq![num] + input.queue@.skip(k + 1));
            lemma_first_invalid_single(num);
        }
        match try_parse_piece(num) {
            Ok(t) => queue.push(t),
            Err(e) => return Err(e),
        }
        assert(queue@ =~= input.queue@.take(k + 1).map_values(|v: i32| piece_type_of(v as int)));
        k += 1;
    }
    assert(input.queue@.take(k as int) =~= input.queue@);
    let matrix_w = input.matrix.len();
    let matrix_h: usize = if matrix_w > 0 {
        input.matrix[0].len()
    } else {
        0
    };
    let mut all_twenty = true;
    let mut c: usize = 0;
    while c < matrix_w
        invariant
            c <= matrix_w,
            matrix_w == input.matrix@.len(),
            all_twenty ==> forall|d: int| 0 <= d < c ==> (#[trigger] input.matrix@[d])@.len() == 20,
            !all_twenty ==> exists|d: int| 0 <= d < c && (#[trigger] input.matrix@[d])@.len() != 20,
        decreases matrix_w - c,
    {
        if input.matrix[c].len() != 20 {
            all_twenty = false;
        }
        c += 1;
    }
    if matrix_w != 10 || !all_twenty {
        let mut text = String::from_str("Error parsing JSON: Invalid matrix dimensions ");
        push_decimal(&mut text, matrix_w);
        text.append("x");
        push_decimal(&mut text, matrix_h);
        proof {
            reveal_strlit("Error parsing JSON: Invalid matrix dimensions ");
            reveal_strlit("x");
        }
        return Err(GenericErr::new(text));
    }
    let mut matrix: [u16; 24] = [0; 24];
    proof {
        assert forall|x: int, y: int| 0 <= x < 16 && 0 <= y < 24 implies !has_bit(matrix[y], x) by {
            lemma_zero_has_no_bit(x as u16);
        }
    }
    let mut i: usize = 0;
    while i < 10
        invariant
            0 <= i <= 10,
            input.matrix@.len() == 10,
            forall|c: int| 0 <= c < 10 ==> (#[trigger] input.matrix@[c])@.len() == 20,
            forall|x: int, y: int|
                0 <= x < 16 && 0 <= y < 24 ==> #[trigger] has_bit(matrix[y], x) == (x < i && y
                    < input.matrix@[x]@.len() && input.matrix@[x]@[y]),
        decreases 10 - i,
    {
        let row = &input.matrix[i];
        let mut j: usize = 0;
        while j < row.len()
            invariant
                0 <= i < 10,
                0 <= j <= row@.len(),
                row@.len() == 20,
                *row == input.matrix@[i as int],
                input.matrix@.len() == 10,
                forall|x: int, y: int|
                    0 <= x < 16 && 0 <= y < 24 ==> #[trigger] has_bit(matrix[y], x) == ((x < i && y
                        < input.matrix@[x]@.len() && input.matrix@[x]@[y]) || (x == i && y < j
                        && row@[y])),
            decreases row@.len() - j,
        {
            if row[j] {
                let ghost before = matrix;
                matrix[j] = matrix[j] | (1u16 << (i as u16));
                proof {
                    assert forall|x: int, y: int| 0 <= x < 16 && 0 <= y < 24 implies #[trigger] has_bit(
                        matrix[y],
                        x,
                    ) == ((x < i && y < input.matrix@[x]@.len() && input.matrix@[x]@[y]) || (x
                        == i && y < j + 1 && row@[y])) by {
                        if y == j {
                            lemma_bit_or_single(before[y], i as u16, x as u16);
                        } else {
                            assert(matrix[y] == before[y]);
                        }
                    }
                }
            }
            j += 1;
        }
        i += 1;
    }
    let mut game = Game::new();
    assert(game.board.matrix@ =~= Seq::new(24, |i: int| 0u16));
    game.set_current(current);
    game.set_hold(hold);
    game.extend_queue(queue.as_slice());
    game.board.set_matrix(matrix);
    proof {
        assert(Seq::<PieceType>::empty() + queue@ =~= queue@);
        assert(game.queue_pieces@ =~= input.queue@.map_values(|v: i32| piece_type_of(v as int)));
    }
    Ok(game)
}

} // verus!

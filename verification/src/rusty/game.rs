//! A game of the compact model: a board, the held piece, a ring-buffer queue
//! and the score; drops can be taken back.
use vstd::prelude::*;
use rand::distributions::Distribution;
use rand::distributions::Uniform;
use rand::rngs::StdRng;
use rand::SeedableRng;
use crate::rusty::board::{
    Board,
    BoardDropOptions,
    BoardDropResult,
    BoardUndoInfo,
    drop_placed,
    block_cleared,
    block_full_rows,
    drop_fits,
    stacked,
};
use crate::rusty::consts::{BOARD_WIDTH, GAME_MAX_QUEUE_LEN};
use crate::rusty::piece::{Piece, piece_of, rusty_shift_bounds};
use crate::rusty::trainer::{apply_swaps, draw_swaps, draws_ok, lemma_swapped_distinct, swapped_down};

verus! {

/// The points a drop earns: one per line, ten more for a perfect clear.
pub open spec fn drop_points(lines: int, perfect_clear: bool) -> int {
    lines + if perfect_clear {
        10int
    } else {
        0int
    }
}

/// A drop scores nothing when it clears no line and leaves the board
/// filled, each further line cleared adds one point, and a perfect clear
/// adds ten.
pub proof fn lemma_points_per_line(lines: int, perfect_clear: bool)
    ensures
        drop_points(0, false) == 0,
        drop_points(lines + 1, perfect_clear) == drop_points(lines, perfect_clear) + 1,
        drop_points(lines, true) == drop_points(lines, false) + 10,
{
}

/// A game of the compact model.
#[derive(Clone)]
pub struct Game {
    pub score: i32,
    pub board: Board,
    pub hold: Piece,
    pub queue: [Piece; 14],
    pub queue_ptr: i32,
    pub queue_len: i32,
}

/// How to drop the current piece.
#[derive(Clone)]
pub struct GameDropOptions {
    pub rotation: i32,
    pub shift: i32,
    pub hold: bool,
}

/// What a drop did.
pub struct GameDropResult {
    pub lines_cleared: i32,
    pub perfect_clear: bool,
}

impl GameDropResult {
    fn from_board_drop_result(res: &BoardDropResult) -> (r: Self)
        ensures
            r.lines_cleared == res.lines_cleared,
            r.perfect_clear == res.perfect_clear,
    {
        GameDropResult { lines_cleared: res.lines_cleared, perfect_clear: res.perfect_clear }
    }
}

/// What is needed to take a drop back.
pub struct GameUndoInfo {
    pub hold: bool,
    pub score: i32,
    pub board: BoardUndoInfo,
}

/// The queue with the held piece swapped with the queue's front.
pub open spec fn held_queue(g: Game) -> Seq<Piece> {
    g.queue@.update(g.queue_ptr as int, g.hold)
}

/// The piece that a drop with or without holding places.
pub open spec fn dropped_piece(g: Game, hold: bool) -> Piece {
    if hold {
        g.hold
    } else {
        g.queue[g.queue_ptr as int]
    }
}

/// `g1` is `g0` after a successful drop with `options` whose take-back
/// information is `u`.
pub open spec fn drop_done(g0: Game, g1: Game, options: GameDropOptions, u: GameUndoInfo) -> bool {
    &&& u.hold == options.hold
    &&& u.board.height_map == g0.board.height_map
    &&& u.board.matrix == g0.board.matrix
    &&& u.board.holes == g0.board.holes
    &&& g1.score == g0.score + u.score
    &&& g1.queue_ptr == (g0.queue_ptr + 1) % 14
    &&& g1.queue_len == g0.queue_len - 1
    &&& options.hold ==> g1.hold == g0.queue[g0.queue_ptr as int] && g1.queue@ == held_queue(g0)
    &&& !options.hold ==> g1.hold == g0.hold && g1.queue == g0.queue
}

/// `g1` is `g0` after taking back a drop with `u`.
pub open spec fn undo_done(g0: Game, g1: Game, u: GameUndoInfo) -> bool {
    let ptr = (g0.queue_ptr - 1 + 14) % 14;
    &&& g1.board.height_map == u.board.height_map
    &&& g1.board.matrix == u.board.matrix
    &&& g1.board.holes == u.board.holes
    &&& g1.queue_ptr == ptr
    &&& g1.queue_len == g0.queue_len + 1
    &&& g1.score == g0.score - u.score
    &&& u.hold ==> g1.hold == g0.queue[ptr] && g1.queue@ == g0.queue@.update(ptr, g0.hold)
    &&& !u.hold ==> g1.hold == g0.hold && g1.queue == g0.queue
}

impl Game {
    /// The queue's pointer and length are in range.
    pub open spec fn wf(&self) -> bool {
        &&& 0 <= self.queue_ptr < 14
        &&& 0 <= self.queue_len <= 14
    }

    /// The pieces of the queue, front first.
    pub open spec fn queue_view(&self) -> Seq<Piece> {
        Seq::new(self.queue_len as nat, |i: int| self.queue[(self.queue_ptr + i) % 14])
    }

    fn drop_score(res: &GameDropResult) -> (score: i32)
        requires
            0 <= res.lines_cleared <= 4,
        ensures
            score == drop_points(res.lines_cleared as int, res.perfect_clear),
            score == res.lines_cleared + if res.perfect_clear {
                10int
            } else {
                0int
            },
    {
        (match res.lines_cleared {
            0 => 0,
            1 => 1,
            2 => 2,
            3 => 3,
            _ => 4,
        }) + (match res.perfect_clear {
            true => 10,
            false => 0,
        })
    }

    /// A game with an empty board, an empty queue and an O piece held.
    pub fn new() -> (game: Self)
        ensures
            game.wf(),
            game.board.wf(),
            forall|y: int| 0 <= y < 40 ==> game.board.matrix[y] == 0,
            game.score == 0,
            game.hold == Piece::O,
            game.queue_ptr == 0,
            game.queue_len == 0,
            game.queue_view() == Seq::<Piece>::empty(),
    {
        let game = Game {
            score: 0,
            board: Board::new(),
            hold: Piece::O,
            queue: [Piece::O; 14],
            queue_ptr: 0,
            queue_len: 0,
        };
        assert(game.queue_view() =~= Seq::<Piece>::empty());
        game
    }

    /// The piece at the front of the queue.
    pub fn get_curr_piece(&self) -> (res: Result<Piece, ()>)
        requires
            self.wf(),
        ensures
            self.queue_len == 0 <==> res is Err,
            res matches Ok(p) ==> p == self.queue[self.queue_ptr as int] && p == self.queue_view()[0],
    {
        if self.queue_len == 0 {
            return Err(());
        }
        Ok(self.queue[self.queue_ptr as usize])
    }

    /// The piece `index` places behind the front of the queue.
    pub fn get_queue_piece(&self, index: i32) -> (res: Result<Piece, ()>)
        requires
            self.wf(),
            index < self.queue_len ==> 0 <= index,
        ensures
            index >= self.queue_len <==> res is Err,
            res matches Ok(p) ==> p == self.queue_view()[index as int],
    {
        if index >= self.queue_len {
            return Err(());
        }
        let index = (self.queue_ptr + index) % GAME_MAX_QUEUE_LEN;
        let piece = self.queue[index as usize];
        Ok(piece)
    }

    /// Drops the front piece of the queue, or the held one when `hold` is
    /// set, as `Board::drop` does, and moves on to the next piece.  It is
    /// refused, with the game left as it was, when fewer than two pieces
    /// are queued or when the board refuses the drop.
    pub fn drop(&mut self, options: &GameDropOptions) -> (res: Result<(GameDropResult, GameUndoInfo), ()>)
        requires
            old(self).wf(),
            old(self).queue_len > 1 ==> ({
                let p = dropped_piece(*old(self), options.hold);
                let m1 = drop_placed(old(self).board.matrix@, p.index(), options.rotation as nat, 3 + options.shift);
                &&& old(self).board.wf()
                &&& old(self).score <= i32::MAX - 14
                &&& 0 <= options.rotation < 4
                &&& drop_fits(old(self).board.matrix@, p.index(), options.rotation as nat, 3 + options.shift)
                &&& -rusty_shift_bounds(p.index(), options.rotation as nat).0 <= options.shift
                    <= rusty_shift_bounds(p.index(), options.rotation as nat).1
                &&& block_cleared(m1)[20] == 0 ==> block_full_rows(m1) <= 4
            }),
        ensures
            old(self).queue_len <= 1 ==> res is Err && *final(self) == *old(self),
            old(self).queue_len > 1 ==> ({
                let p = dropped_piece(*old(self), options.hold);
                let m1 = drop_placed(old(self).board.matrix@, p.index(), options.rotation as nat, 3 + options.shift);
                let m2 = block_cleared(m1);
                &&& (res is Err <==> m2[20] != 0)
                &&& res is Err ==> *final(self) == *old(self)
                &&& res matches Ok((d, u)) ==> {
                    &&& drop_done(*old(self), *final(self), *options, u)
                    &&& final(self).board.matrix@ == m2
                    &&& d.lines_cleared == block_full_rows(m1)
                    &&& d.perfect_clear == (m2[0] == 0)
                    &&& u.score == drop_points(d.lines_cleared as int, d.perfect_clear)
                    &&& u.score == d.lines_cleared + if d.perfect_clear {
                        10int
                    } else {
                        0int
                    }
                    &&& final(self).score == old(self).score + d.lines_cleared + if d.perfect_clear {
                        10int
                    } else {
                        0int
                    }
                    &&& stacked(old(self).board.matrix@) ==> final(self).board.wf() && stacked(final(self).board.matrix@)
                        && forall|y: int| 20 <= y < 40 ==> final(self).board.matrix[y] == 0
                }
            }),
            final(self).wf(),
    {
        if self.queue_len <= 1 {
            return Err(());
        }
        if options.hold {
            self.swap_hold();
        }
        let piece = self.queue[self.queue_ptr as usize];
        assert(piece == dropped_piece(*old(self), options.hold));
        let drop_res = self.board.drop(
            &piece,
            &BoardDropOptions { rotation: options.rotation, shift: options.shift },
        );
        match drop_res {
            Err(_) => {
                if options.hold {
                    self.swap_hold();
                    assert(self.queue@ =~= old(self).queue@);
                    assert(self.queue == old(self).queue);
                }
                assert(self.board == old(self).board);
                Err(())
            },
            Ok((drop_res, board_undo_info)) => {
                proof {
                    let m1 = drop_placed(old(self).board.matrix@, piece.index(), options.rotation as nat, 3 + options.shift);
                    let z = crate::rusty::board::first_zero(m1, 0);
                    crate::rusty::board::lemma_first_zero(m1, 0);
                    crate::common::board::lemma_non_full_len(m1.subrange(0, z));
                    assert(drop_res.lines_cleared == block_full_rows(m1));
                    assert(block_cleared(m1)[20] == 0);
                    assert(block_full_rows(m1) <= 4);
                }
                let game_res = GameDropResult::from_board_drop_result(&drop_res);
                let score = Game::drop_score(&game_res);
                self.score += score;
                self.queue_ptr = (self.queue_ptr + 1) % GAME_MAX_QUEUE_LEN;
                self.queue_len -= 1;
                let game_undo_info = GameUndoInfo { hold: options.hold, score, board: board_undo_info };
                Ok((game_res, game_undo_info))
            },
        }
    }

    /// Takes back a drop.
    pub fn undo(&mut self, undo_info: &GameUndoInfo)
        requires
            old(self).wf(),
            old(self).queue_len < 14,
            i32::MIN <= old(self).score - undo_info.score <= i32::MAX,
        ensures
            undo_done(*old(self), *final(self), *undo_info),
            final(self).wf(),
    {
        self.board.undo(&undo_info.board);
        self.queue_ptr = (self.queue_ptr - 1 + GAME_MAX_QUEUE_LEN) % GAME_MAX_QUEUE_LEN;
        self.queue_len += 1;
        if undo_info.hold {
            self.swap_hold();
        }
        self.score -= undo_info.score;
    }

    fn swap_hold(&mut self)
        requires
            0 <= old(self).queue_ptr < 14,
        ensures
            final(self).hold == old(self).queue[old(self).queue_ptr as int],
            final(self).queue@ == held_queue(*old(self)),
            final(self).board == old(self).board,
            final(self).score == old(self).score,
            final(self).queue_ptr == old(self).queue_ptr,
            final(self).queue_len == old(self).queue_len,
    {
        let tmp = self.queue[self.queue_ptr as usize].clone();
        self.queue[self.queue_ptr as usize] = self.hold.clone();
        self.hold = tmp;
    }

    /// Adds a piece at the back of the queue, or refuses when it is full.
    pub fn append_queue(&mut self, piece: Piece) -> (res: Result<(), ()>)
        requires
            old(self).wf(),
        ensures
            final(self).wf(),
            old(self).queue_len == 14 <==> res is Err,
            res is Err ==> *final(self) == *old(self),
            res is Ok ==> final(self).queue_view() == old(self).queue_view().push(piece)
                && final(self).queue_len == old(self).queue_len + 1,
            final(self).board == old(self).board,
            final(self).score == old(self).score,
            final(self).hold == old(self).hold,
            final(self).queue_ptr == old(self).queue_ptr,
    {
        if self.queue_len == GAME_MAX_QUEUE_LEN {
            return Err(());
        }
        let index = (self.queue_ptr + self.queue_len) % GAME_MAX_QUEUE_LEN;
        self.queue[index as usize] = piece;
        self.queue_len += 1;
        proof {
            assert forall|i: int| 0 <= i < old(self).queue_len implies #[trigger] self.queue_view()[i]
                == old(self).queue_view()[i] by {
                assert((self.queue_ptr + i) % 14 != index as int);
            }
            assert(self.queue_view() =~= old(self).queue_view().push(piece));
        }
        Ok(())
    }

    /// Adds pieces at the back of the queue until it is full.
    pub fn extend_queue(&mut self, pieces: Vec<Piece>)
        requires
            old(self).wf(),
        ensures
            final(self).wf(),
            final(self).queue_view() == old(self).queue_view() + pieces@.take(
                if pieces@.len() <= 14 - old(self).queue_len {
                    pieces@.len() as int
                } else {
                    14 - old(self).queue_len
                },
            ),
            final(self).board == old(self).board,
            final(self).score == old(self).score,
            final(self).hold == old(self).hold,
            final(self).queue_ptr == old(self).queue_ptr,
    {
        let mut i: usize = 0;
        while i < pieces.len()
            invariant
                0 <= i <= pieces@.len(),
                self.wf(),
                self.queue_len == old(self).queue_len + i,
                self.queue_view() == old(self).queue_view() + pieces@.take(i as int),
                self.board == old(self).board,
                self.score == old(self).score,
                self.hold == old(self).hold,
                self.queue_ptr == old(self).queue_ptr,
            ensures
                i == pieces@.len() || self.queue_len == 14,
                0 <= i <= pieces@.len(),
                self.wf(),
                self.queue_len == old(self).queue_len + i,
                self.queue_view() == old(self).queue_view() + pieces@.take(i as int),
                self.board == old(self).board,
                self.score == old(self).score,
                self.hold == old(self).hold,
                self.queue_ptr == old(self).queue_ptr,
            decreases pieces@.len() - i,
        {
            let res = self.append_queue(pieces[i]);
            if let Err(_) = res {
                break;
            }
            assert(pieces@.take(i + 1) =~= pieces@.take(i as int).push(pieces@[i as int]));
            i += 1;
        }
    }

    /// Empties the queue.
    pub fn clear_queue(&mut self)
        ensures
            final(self).queue_ptr == 0,
            final(self).queue_len == 0,
            final(self).queue_view() == Seq::<Piece>::empty(),
            final(self).queue == old(self).queue,
            final(self).board == old(self).board,
            final(self).score == old(self).score,
            final(self).hold == old(self).hold,
    {
        self.queue_ptr = 0;
        self.queue_len = 0;
        assert(self.queue_view() =~= Seq::<Piece>::empty());
    }

    /// Replaces the queue by the first pieces given, as many as fit.
    pub fn set_queue(&mut self, pieces: Vec<Piece>)
        ensures
            final(self).wf(),
            final(self).queue_view() == pieces@.take(
                if pieces@.len() <= 14 {
                    pieces@.len() as int
                } else {
                    14
                },
            ),
            final(self).board == old(self).board,
            final(self).score == old(self).score,
            final(self).hold == old(self).hold,
    {
        self.clear_queue();
        self.extend_queue(pieces);
    }

    /// Replaces the held piece.
    pub fn set_hold(&mut self, piece: Piece)
        ensures
            final(self).hold == piece,
            final(self).board == old(self).board,
            final(self).score == old(self).score,
            final(self).queue == old(self).queue,
            final(self).queue_ptr == old(self).queue_ptr,
            final(self).queue_len == old(self).queue_len,
    {
        self.hold = piece;
    }
}

/// The random number generator of `rand` that the piece generator uses.
#[verifier::external_type_specification]
#[verifier::external_body]
pub struct ExStdRng(StdRng);

/// `StdRng::seed_from_u64` from `rand`: a generator seeded with `seed`.
/// Nothing is stated of the generator it returns.
#[verifier::external_body]
fn seeded_rng(seed: u64) -> StdRng {
    StdRng::seed_from_u64(seed)
}

/// `Uniform::new(0, high)` from `rand`, sampled once with `rng`: a number
/// of `0..high`, which the crate documents as the half-open range that
/// `Uniform::new` samples (it panics unless `0 < high`).
#[verifier::external_body]
pub(crate) fn sample_below_u64(rng: &mut StdRng, high: u64) -> (k: u64)
    requires
        0 < high,
    ensures
        k < high,
{
    Uniform::new(0, high).sample(rng)
}

/// `Uniform::new(0, high)` from `rand` over `i32`, sampled once with `rng`:
/// a number of `0..high` (it panics unless `0 < high`).
#[verifier::external_body]
fn sample_below_i32(rng: &mut StdRng, high: i32) -> (k: i32)
    requires
        0 < high,
    ensures
        0 <= k < high,
{
    Uniform::new(0, high).sample(rng)
}

/// The full row of the board with column `c` left empty.
pub open spec fn garbage_row(c: int) -> u16 {
    1023u16 & !(1u16 << (c as u16))
}

/// Seeded source of the pieces and garbage lines of a game.
pub struct GameRNGGenerator {
    rng: StdRng,
}

impl GameRNGGenerator {
    /// A generator seeded with `seed`, or with 1.
    pub fn new(seed: Option<u64>) -> (g: Self) {
        GameRNGGenerator { rng: seeded_rng(seed.unwrap_or(1)) }
    }

    /// The seven pieces in a random order (Fisher-Yates): the order that the
    /// swaps of some draws pick from the pieces in number order.
    pub fn gen_7bag(&mut self) -> (pieces: Vec<Piece>)
        ensures
            exists|ks: Seq<usize>| draws_ok(ks, 7) && pieces@ == swapped_down(all_pieces(), ks, 6),
            pieces@.len() == 7,
            forall|a: int, b: int| 0 <= a < b < 7 ==> pieces@[a] != pieces@[b],
    {
        let mut pieces = Piece::get_all_pieces();
        proof {
            assert forall|k: int| 0 <= k < 7 implies pieces@[k] == all_pieces()[k] by {
                assert(pieces@[k].index() == k);
                match pieces@[k] {
                    Piece::O => {},
                    Piece::I => {},
                    Piece::T => {},
                    Piece::L => {},
                    Piece::J => {},
                    Piece::S => {},
                    Piece::Z => {},
                }
            }
            assert(pieces@ =~= all_pieces());
            assert forall|a: int, b: int| 0 <= a < pieces@.len() && 0 <= b < pieces@.len() && a != b implies pieces@[a] != pieces@[b] by {
                assert(pieces@[a].index() == a);
                assert(pieces@[b].index() == b);
            }
        }
        let ks = draw_swaps(7, &mut self.rng);
        apply_swaps(&mut pieces, &ks);
        proof {
            lemma_swapped_distinct(all_pieces(), ks@, 6);
            crate::rusty::trainer::lemma_swapped_multiset(all_pieces(), ks@, 6);
        }
        pieces
    }

    /// A full bottom row with one random column of the board left empty.
    pub fn gen_garbage_line(&mut self) -> (line: u16)
        ensures
            exists|c: int| 0 <= c < 10 && line == #[trigger] garbage_row(c),
    {
        let index = sample_below_i32(&mut self.rng, BOARD_WIDTH);
        garbage_line(index)
    }
}

/// The seven pieces in number order.
pub open spec fn all_pieces() -> Seq<Piece> {
    Seq::new(7, |i: int| piece_of(i))
}

/// A full bottom row with column `column` left empty.
pub fn garbage_line(column: i32) -> (line: u16)
    requires
        0 <= column < 10,
    ensures
        line == garbage_row(column as int),
{
    assert((1u16 << 10u16) == 1024u16) by (bit_vector);
    let mut line: u16 = (1u16 << (BOARD_WIDTH as u16)) - 1;
    line = line & !(1u16 << (column as u16));
    proof {
        let c = column as u16;
        assert(line == 1023u16 & !(1u16 << c));
    }
    line
}

/// Taking back a successful drop with the information it returned gives
/// back the game as it was before the drop.
pub proof fn lemma_undo_restores(g0: Game, g1: Game, g2: Game, options: GameDropOptions, u: GameUndoInfo)
    requires
        g0.wf(),
        drop_done(g0, g1, options, u),
        undo_done(g1, g2, u),
    ensures
        g2 == g0,
{
    let ptr = (g1.queue_ptr - 1 + 14) % 14;
    assert(ptr == g0.queue_ptr);
    if options.hold {
        assert(g2.queue@ =~= g0.queue@);
        assert(g2.queue == g0.queue);
    }
    assert(g2.board == g0.board);
}

} // verus!

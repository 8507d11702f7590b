//! The computer opponent: it plays `O`, by minimax search or at random.

use crate::board::{
    cell, cell_index, free_cells, free_count, free_list_valid, full, lemma_free_cells_valid,
    on_board, winner, Board, Field,
};
use rand::Rng;
use vstd::prelude::*;

verus! {

/// How the opponent picks its moves.
pub enum Difficulty {
    /// Always a free cell drawn at random.
    Easy,
    /// A fair coin decides between a search and a random move.
    Medium,
    /// Always the move that the search finds best.
    Hard,
}

/// The opponent, with two counters that only describe its last search.
pub struct Ai {
    pub difficulty: Difficulty,
    /// Positions scored during the last move (saturating).
    pub iterations: u64,
    /// Depth of the terminal position scored last.
    pub depth: u64,
}

/// The player that moves on a maximizing ply (`O`) or a minimizing one (`X`).
pub open spec fn mover(is_max: bool) -> Field {
    if is_max {
        Field::O
    } else {
        Field::X
    }
}

/// The board after `p` plays on the cell `m`.
pub open spec fn play(b: Seq<Field>, m: (u16, u16), p: Field) -> Seq<Field> {
    b.update(cell_index(m.0 as int, m.1 as int), p)
}

/// Whether `m` is a free cell of the nine-cell board `b`.
pub open spec fn playable(b: Seq<Field>, m: (u16, u16)) -> bool {
    b.len() == 9 && on_board(m.0 as int, m.1 as int) && cell(b, m.0 as int, m.1 as int)
        == Field::Free
}

/// The value of `b` under full minimax search: `1` where `O` wins, `-1` where
/// `X` wins, `0` for a draw; `is_max` says that `O` is to move.
pub open spec fn score(b: Seq<Field>, is_max: bool) -> int
    decreases free_count(b), free_cells(b).len() + 1,
{
    if winner(b) == Field::O {
        1
    } else if winner(b) == Field::X {
        -1
    } else if full(b) {
        0
    } else {
        best_score_over(b, is_max, free_cells(b))
    }
}

/// The best score that the player to move reaches through the moves of
/// `moves`, scanned in order from `-2` (maximizing) or `2` (minimizing).
pub open spec fn best_score_over(b: Seq<Field>, is_max: bool, moves: Seq<(u16, u16)>) -> int
    decreases free_count(b), moves.len(),
{
    if moves.len() == 0 {
        if is_max {
            -2
        } else {
            2
        }
    } else {
        let prev = best_score_over(b, is_max, moves.drop_last());
        let m = moves.last();
        if playable(b, m) {
            proof {
                crate::board::lemma_occupy_cell(
                    b,
                    cell_index(m.0 as int, m.1 as int),
                    mover(is_max),
                );
            }
            let s = score(play(b, m, mover(is_max)), !is_max);
            if is_max {
                if s > prev {
                    s
                } else {
                    prev
                }
            } else {
                if s < prev {
                    s
                } else {
                    prev
                }
            }
        } else {
            prev
        }
    }
}

/// The score of the reply `m` for `O`: the board after `O` plays `m`, with
/// `X` to move.
pub open spec fn reply_score(b: Seq<Field>, m: (u16, u16)) -> int {
    score(play(b, m, Field::O), false)
}

/// The best score among `moves` and the position in `moves` of the first move
/// that reaches it, scanning from a score of `-2` and position `-1`.
pub open spec fn best_choice(b: Seq<Field>, moves: Seq<(u16, u16)>) -> (int, int)
    decreases moves.len(),
{
    if moves.len() == 0 {
        (-2, -1)
    } else {
        let (best, at) = best_choice(b, moves.drop_last());
        let s = reply_score(b, moves.last());
        if s > best {
            (s, moves.len() - 1)
        } else {
            (best, at)
        }
    }
}

/// The move that `O` makes under full search: the first free cell, in the
/// order of `free_cells`, whose reply scores highest.
pub open spec fn best_move(b: Seq<Field>) -> (u16, u16) {
    free_cells(b)[best_choice(b, free_cells(b)).1]
}

/// The board after `O` plays its best move.
pub open spec fn after_best_move(b: Seq<Field>) -> Seq<Field> {
    play(b, best_move(b), Field::O)
}

/// The boards that a random move of `O` can give.
pub open spec fn after_some_free_move(b: Seq<Field>, r: Seq<Field>) -> bool {
    exists|i: int| 0 <= i < free_cells(b).len() && r == play(b, #[trigger] free_cells(b)[i], Field::O)
}

/// Draws `r` uniformly from `0..n`.
///
/// Relies on rand's `Rng::gen_range` over `thread_rng()`: the value lies in
/// the half-open range it is given, and the call panics on an empty range.
#[verifier::external_body]
fn random_below(n: usize) -> (r: usize)
    requires
        n > 0,
    ensures
        r < n,
{
    rand::thread_rng().gen_range(0..n)
}

/// A finished or playable position scores between `-1` and `1`.
pub proof fn lemma_score_range(b: Seq<Field>, is_max: bool)
    requires
        b.len() == 9,
    ensures
        -1 <= score(b, is_max) <= 1,
    decreases free_count(b), free_cells(b).len() + 1,
{
    if winner(b) != Field::O && winner(b) != Field::X && !full(b) {
        lemma_free_cells_valid(b);
        let moves = free_cells(b);
        lemma_has_free_cell(b);
        lemma_best_score_range(b, is_max, moves);
    }
}

/// A board that is not full lists a free cell.
proof fn lemma_has_free_cell(b: Seq<Field>)
    requires
        !full(b),
    ensures
        free_cells(b).len() > 0,
{
    let i = choose|i: int| 0 <= i < 9 && b[i] == Field::Free;
    let x = (i % 3) as u16;
    let y = (i / 3) as u16;
    assert(cell(b, x as int, y as int) == Field::Free);
    crate::board::lemma_free_cells_lists_free(b, x, y);
}

/// Over a non-empty list of playable moves the best score lies in `-1..=1`.
proof fn lemma_best_score_range(b: Seq<Field>, is_max: bool, moves: Seq<(u16, u16)>)
    requires
        b.len() == 9,
        moves.len() > 0,
        forall|j: int| 0 <= j < moves.len() ==> playable(b, #[trigger] moves[j]),
    ensures
        -1 <= best_score_over(b, is_max, moves) <= 1,
    decreases free_count(b), moves.len(),
{
    let m = moves.last();
    let prefix = moves.drop_last();
    assert(playable(b, moves[moves.len() - 1]));
    let child = play(b, m, mover(is_max));
    crate::board::lemma_occupy_cell(b, cell_index(m.0 as int, m.1 as int), mover(is_max));
    lemma_score_range(child, !is_max);
    let prev = best_score_over(b, is_max, prefix);
    if prefix.len() > 0 {
        assert forall|j: int| 0 <= j < prefix.len() implies playable(b, #[trigger] prefix[j]) by {
            assert(prefix[j] == moves[j]);
        }
        lemma_best_score_range(b, is_max, prefix);
    } else {
        assert(prev == if is_max {
            -2
        } else {
            2
        });
    }
}

/// Over a non-empty list of playable moves the scan ends on a position of
/// `moves` whose reply has the best score, and every earlier move scores
/// strictly lower.
proof fn lemma_best_choice(b: Seq<Field>, moves: Seq<(u16, u16)>)
    requires
        b.len() == 9,
        forall|j: int| 0 <= j < moves.len() ==> playable(b, #[trigger] moves[j]),
    ensures
        moves.len() > 0 ==> 0 <= best_choice(b, moves).1 < moves.len(),
        moves.len() > 0 ==> best_choice(b, moves).0 == reply_score(b, moves[best_choice(b, moves).1]),
        forall|i: int| 0 <= i < moves.len() ==> reply_score(b, #[trigger] moves[i]) <= best_choice(b, moves).0,
        forall|i: int| 0 <= i < best_choice(b, moves).1 ==> reply_score(b, #[trigger] moves[i]) < best_choice(b, moves).0,
        moves.len() == 0 ==> best_choice(b, moves).0 == -2,
    decreases moves.len(),
{
    if moves.len() > 0 {
        let prefix = moves.drop_last();
        lemma_best_choice(b, prefix);
        let m = moves.last();
        assert(playable(b, moves[moves.len() - 1]));
        lemma_score_range(play(b, m, Field::O), false);
        assert forall|i: int| 0 <= i < prefix.len() implies moves[i] == prefix[i] by {}
    }
}

/// A full board on which nobody has a line is a draw, scored `0` whoever is
/// to move.
pub proof fn lemma_draw_scores_zero(b: Seq<Field>, is_max: bool)
    requires
        full(b),
        winner(b) == Field::Free,
    ensures
        score(b, is_max) == 0,
{
}

/// Of the replies that tie for the best score, `O` takes the first in the
/// order of `free_cells`: its best move scores at least as high as every
/// free cell, and strictly higher than every free cell listed before it.
pub proof fn lemma_best_move_first_of_ties(b: Seq<Field>)
    requires
        b.len() == 9,
        !full(b),
    ensures
        free_cells(b).contains(best_move(b)),
        forall|i: int|
            0 <= i < free_cells(b).len() ==> reply_score(b, #[trigger] free_cells(b)[i])
                <= reply_score(b, best_move(b)),
        forall|i: int|
            0 <= i < free_cells(b).len() && free_cells(b)[i] != best_move(b) && reply_score(
                b,
                #[trigger] free_cells(b)[i],
            ) == reply_score(b, best_move(b)) ==> exists|j: int|
                0 <= j < i && free_cells(b)[j] == best_move(b),
{
    let moves = free_cells(b);
    lemma_free_cells_valid(b);
    lemma_has_free_cell(b);
    lemma_best_choice(b, moves);
    crate::board::lemma_free_cells_complete(b);
    let at = best_choice(b, moves).1;
    assert(moves[at] == best_move(b));
    assert forall|i: int|
        0 <= i < moves.len() && moves[i] != best_move(b) && reply_score(b, #[trigger] moves[i])
            == reply_score(b, best_move(b)) implies exists|j: int|
        0 <= j < i && moves[j] == best_move(b) by {
        if i <= at {
            assert(i != at);
            assert(reply_score(b, moves[i]) < best_choice(b, moves).0);
        }
        assert(0 <= at < i && moves[at] == best_move(b));
    }
}

fn mover_of(is_max: bool) -> (r: Field)
    ensures
        r == mover(is_max),
{
    if is_max {
        Field::O
    } else {
        Field::X
    }
}

impl Ai {
    /// An opponent of the given difficulty, with both counters at zero.
    pub fn new(difficulty: Difficulty) -> (r: Ai)
        ensures
            r.difficulty == difficulty,
            r.iterations == 0,
            r.depth == 0,
    {
        Ai { difficulty, iterations: 0, depth: 0 }
    }

    /// Scores `board` by exhaustive search, `is_max` saying that `O` is to
    /// move; `depth` is the ply of `board` below the search's root. Every
    /// tentative move is taken back, so the board comes back unchanged.
    pub fn minimax(&mut self, board: &mut Board, depth: u64, is_max: bool) -> (r: i16)
        ensures
            r == score(old(board)@, is_max),
            final(board)@ == old(board)@,
            final(self).difficulty == old(self).difficulty,
            final(self).iterations > old(self).iterations || final(self).iterations == u64::MAX,
            winner(old(board)@) != Field::Free || full(old(board)@) ==> final(self).depth == depth,
        decreases free_count(old(board)@),
    {
        self.iterations = self.iterations.saturating_add(1);
        let won = board.has_won();
        if won == Field::O {
            self.depth = depth;
            return 1;
        } else if won == Field::X {
            self.depth = depth;
            return -1;
        } else if board.is_full() {
            self.depth = depth;
            return 0;
        }
        let ghost b = board@;
        let moves = board.get_free();
        proof {
            lemma_free_cells_valid(b);
        }
        let player = mover_of(is_max);
        let mut best_score: i16 = if is_max {
            -2
        } else {
            2
        };
        for i in 0..moves.len()
            invariant
                board@ == b,
                old(board)@ == b,
                b.len() == 9,
                moves@ == free_cells(b),
                free_list_valid(b, moves@, 9),
                player == mover(is_max),
                self.difficulty == old(self).difficulty,
                self.iterations > old(self).iterations || self.iterations == u64::MAX,
                best_score == best_score_over(b, is_max, moves@.take(i as int)),
        {
            let (x, y) = moves[i];
            assert(moves@.take(i + 1).drop_last() =~= moves@.take(i as int));
            assert(moves@.take(i + 1).last() == moves@[i as int]);
            proof {
                crate::board::lemma_occupy_cell(b, cell_index(x as int, y as int), player);
            }
            assert(playable(b, moves@[i as int]));
            board.make_move(x, y, player);
            let score = self.minimax(board, depth.saturating_add(1), !is_max);
            board.set(x, y, Field::Free);
            assert(board@ =~= b);
            if is_max {
                if score > best_score {
                    best_score = score;
                }
            } else {
                if score < best_score {
                    best_score = score;
                }
            }
        }
        assert(moves@.take(moves.len() as int) =~= moves@);
        best_score
    }

    /// Plays `O` on the free cell whose reply scores highest, the first such
    /// cell in the order of `Board::get_free` when several tie.
    pub fn make_move_minmax(&mut self, board: &mut Board)
        requires
            !full(old(board)@),
        ensures
            final(board)@ == after_best_move(old(board)@),
            final(self).difficulty == old(self).difficulty,
    {
        let ghost b = board@;
        let moves = board.get_free();
        proof {
            lemma_free_cells_valid(b);
            lemma_has_free_cell(b);
            lemma_best_choice(b, moves@);
        }
        let mut best_score: i16 = -2;
        let mut next_move: Option<(u16, u16)> = None;
        let ghost mut at: int = -1;
        for i in 0..moves.len()
            invariant
                board@ == b,
                b.len() == 9,
                moves@ == free_cells(b),
                free_list_valid(b, moves@, 9),
                self.difficulty == old(self).difficulty,
                (best_score as int, at) == best_choice(b, moves@.take(i as int)),
                -1 <= at < i,
                at == -1 ==> next_move is None,
                at >= 0 ==> next_move == Some(moves@[at]),
        {
            let (x, y) = moves[i];
            assert(moves@.take(i + 1).drop_last() =~= moves@.take(i as int));
            assert(moves@.take(i + 1).last() == moves@[i as int]);
            assert(playable(b, moves@[i as int]));
            board.make_move(x, y, Field::O);
            let score = self.minimax(board, 0, false);
            board.set(x, y, Field::Free);
            assert(board@ =~= b);
            if score > best_score {
                best_score = score;
                next_move = Some((x, y));
                proof {
                    at = i as int;
                }
            }
        }
        assert(moves@.take(moves.len() as int) =~= moves@);
        match next_move {
            Some((x, y)) => {
                board.make_move(x, y, Field::O);
            },
            None => {
                assert(false);
            },
        }
    }

    /// Plays `O` on the free cell at position `pick` of `Board::get_free`.
    pub fn make_move_rand(&self, board: &mut Board, pick: usize)
        requires
            pick < free_cells(old(board)@).len(),
        ensures
            final(board)@ == play(old(board)@, free_cells(old(board)@)[pick as int], Field::O),
    {
        let ghost b = board@;
        let free = board.get_free();
        proof {
            lemma_free_cells_valid(b);
        }
        let (x, y) = free[pick];
        assert(playable(b, free@[pick as int]));
        board.make_move(x, y, Field::O);
    }

    /// Makes the opponent's move on a board with a free cell, resetting both
    /// counters first. Returns whether the move was drawn at random.
    pub fn make_move(&mut self, board: &mut Board) -> (was_rand: bool)
        requires
            !full(old(board)@),
        ensures
            final(self).difficulty == old(self).difficulty,
            old(self).difficulty is Hard ==> !was_rand,
            old(self).difficulty is Easy ==> was_rand,
            !was_rand ==> final(board)@ == after_best_move(old(board)@),
            was_rand ==> after_some_free_move(old(board)@, final(board)@),
            was_rand ==> final(self).iterations == 0 && final(self).depth == 0,
    {
        self.iterations = 0;
        self.depth = 0;
        let ghost b = board@;
        let use_search = match self.difficulty {
            Difficulty::Hard => true,
            Difficulty::Medium => random_below(2) == 0,
            Difficulty::Easy => false,
        };
        if use_search {
            self.make_move_minmax(board);
            false
        } else {
            proof {
                lemma_has_free_cell(b);
            }
            let pick = random_below(board.get_free().len());
            self.make_move_rand(board, pick);
            assert(after_some_free_move(b, board@) ) by {
                assert(board@ == play(b, free_cells(b)[pick as int], Field::O));
            }
            true
        }
    }

}

} // verus!

//! Scoring: stone counts per colour and the winner rule.
//!
//! The winner is undecided while either colour still has an opportunity.
//! When neither side can move, White wins ties because Black always has
//! the first move; otherwise the colour with more stones wins.

use vstd::prelude::*;

use crate::board::{
    cell, grid_count, in_bounds, spec_can_place, Board, Grid, Piece,
};

verus! {

/// Some empty square is playable for `p`.
pub open spec fn has_move(g: Grid, p: Piece) -> bool {
    exists|x: int, y: int| in_bounds(x, y) && cell(g, x, y) is None && spec_can_place(g, x, y, p)
}

/// Count the stones of colour `p` on the board.
fn count_stones(board: &Board, p: Piece) -> (r: u8)
    requires
        board.well_formed(),
    ensures
        r as int == grid_count(board.grid(), p),
{
    let ghost g = board.grid();
    let squares = board.squares();
    let mut count: u8 = 0;
    let mut x: usize = 0;
    proof {
        assert(g.take(0) =~= Seq::empty());
    }
    while x < 8
        invariant
            board.well_formed(),
            g == board.grid(),
            squares.deep_view() == g,
            x <= 8,
            count as int == grid_count(g.take(x as int), p),
            count as int <= 8 * x,
        decreases 8 - x,
    {
        let row = &squares[x];
        proof {
            assert(row.deep_view() == g[x as int]);
            assert(g[x as int].len() == 8);
            assert(row@.len() == 8);
            assert(g[x as int].take(0) =~= Seq::empty());
        }
        let mut y: usize = 0;
        let mut row_cnt: u8 = 0;
        while y < 8
            invariant
                x < 8,
                y <= 8,
                row.deep_view() == g[x as int],
                g[x as int].len() == 8,
                row@.len() == 8,
                row_cnt as int == crate::board::row_count(g[x as int].take(y as int), p),
                row_cnt as int <= y,
            decreases 8 - y,
        {
            let hit = match row[y] {
                Some(c) => c == p,
                None => false,
            };
            proof {
                let r8 = g[x as int];
                assert(r8.take(y as int + 1).drop_last() =~= r8.take(y as int));
                assert(r8.take(y as int + 1).last() == r8[y as int]);
                assert(r8[y as int] == row@[y as int].deep_view());
            }
            if hit {
                row_cnt = row_cnt + 1;
            }
            y = y + 1;
        }
        proof {
            assert(g[x as int].take(8) =~= g[x as int]);
            assert(g.take(x as int + 1).drop_last() =~= g.take(x as int));
            assert(g.take(x as int + 1).last() == g[x as int]);
        }
        count = count + row_cnt;
        x = x + 1;
    }
    proof {
        assert(g.take(8) =~= g);
    }
    count
}

/// Bar to keep track of the current score between the two teams.
pub struct Score {
    white: u8,
    black: u8,
    white_moves: bool,
    black_moves: bool,
}

impl Score {
    /// The number of white stones counted.
    pub closed spec fn spec_white(self) -> u8 {
        self.white
    }

    /// The number of black stones counted.
    pub closed spec fn spec_black(self) -> u8 {
        self.black
    }

    /// Whether White still had an opportunity when the score was taken.
    pub closed spec fn spec_white_moves(self) -> bool {
        self.white_moves
    }

    /// Whether Black still had an opportunity when the score was taken.
    pub closed spec fn spec_black_moves(self) -> bool {
        self.black_moves
    }

    /// The winner this score stands for: undecided while either colour
    /// can move, then White on ties, else the colour with more stones.
    pub open spec fn spec_winner(self) -> Option<Piece> {
        if self.spec_black_moves() || self.spec_white_moves() {
            None
        } else if self.spec_white() >= self.spec_black() {
            Some(Piece::White)
        } else {
            Some(Piece::Black)
        }
    }

    /// Take the score of a board: both stone counts and whether either
    /// colour still has an opportunity.
    pub fn score(board: &Board) -> (r: Score)
        requires
            board.well_formed(),
        ensures
            r.spec_white() as int == grid_count(board.grid(), Piece::White),
            r.spec_black() as int == grid_count(board.grid(), Piece::Black),
            r.spec_white_moves() == has_move(board.grid(), Piece::White),
            r.spec_black_moves() == has_move(board.grid(), Piece::Black),
    {
        let white = count_stones(board, Piece::White);
        let black = count_stones(board, Piece::Black);
        let white_opps = board.opportunities(Piece::White);
        let black_opps = board.opportunities(Piece::Black);
        let white_moves = white_opps.len() > 0;
        let black_moves = black_opps.len() > 0;
        proof {
            let g = board.grid();
            if white_opps@.len() > 0 {
                let (cx, cy) = white_opps@[0];
                assert(in_bounds(cx as int, cy as int) && cell(g, cx as int, cy as int) is None
                    && spec_can_place(g, cx as int, cy as int, Piece::White));
            } else {
                assert forall|x: int, y: int|
                    !(in_bounds(x, y) && cell(g, x, y) is None
                        && spec_can_place(g, x, y, Piece::White)) by {
                    if in_bounds(x, y) && cell(g, x, y) is None
                        && spec_can_place(g, x, y, Piece::White) {
                        assert(white_opps@.contains((x as u8, y as u8)));
                    }
                }
            }
            if black_opps@.len() > 0 {
                let (cx, cy) = black_opps@[0];
                assert(in_bounds(cx as int, cy as int) && cell(g, cx as int, cy as int) is None
                    && spec_can_place(g, cx as int, cy as int, Piece::Black));
            } else {
                assert forall|x: int, y: int|
                    !(in_bounds(x, y) && cell(g, x, y) is None
                        && spec_can_place(g, x, y, Piece::Black)) by {
                    if in_bounds(x, y) && cell(g, x, y) is None
                        && spec_can_place(g, x, y, Piece::Black) {
                        assert(black_opps@.contains((x as u8, y as u8)));
                    }
                }
            }
        }
        Score { white, black, white_moves, black_moves }
    }

    /// The number of white stones.
    pub fn white(&self) -> (r: u8)
        ensures
            r == self.spec_white(),
    {
        self.white
    }

    /// The number of black stones.
    pub fn black(&self) -> (r: u8)
        ensures
            r == self.spec_black(),
    {
        self.black
    }

    /// Determine the winner of the game. Returns None in case the winner
    /// is unclear as of yet, otherwise the colour of the winner. This is
    /// strictly by stones; a game may also end elsewhere, for instance
    /// when one player forfeits.
    pub fn winner(&self) -> (r: Option<Piece>)
        ensures
            r == self.spec_winner(),
    {
        if self.black_moves || self.white_moves {
            return None;
        }
        if self.white >= self.black {
            Some(Piece::White)
        } else {
            Some(Piece::Black)
        }
    }

    /// Both counts, white first.
    pub fn get_score(&self) -> (r: (u8, u8))
        ensures
            r == (self.spec_white(), self.spec_black()),
    {
        (self.white, self.black)
    }
}

} // verus!

use othello::board::{Board, Piece};
use othello::score::Score;

#[test]
fn opposite_swaps_colours() {
    assert_eq!(Piece::Black.opposite(), Piece::White);
    assert_eq!(Piece::White.opposite(), Piece::Black);
}

#[test]
fn new_board_layout() {
    let b = Board::new();
    let s = b.squares();
    for x in 0..8 {
        for y in 0..8 {
            let expect = if (x == 3 && y == 3) || (x == 4 && y == 4) {
                Some(Piece::White)
            } else if (x == 3 && y == 4) || (x == 4 && y == 3) {
                Some(Piece::Black)
            } else {
                None
            };
            assert_eq!(s[x][y], expect);
        }
    }
    assert_eq!(b.turn(), Piece::Black);
}

#[test]
fn can_place_iff_affected_directions() {
    let b = Board::new();
    for x in 0..8u8 {
        for y in 0..8u8 {
            for piece in [Piece::Black, Piece::White] {
                let dirs = b.affected_directions((x, y), piece);
                assert_eq!(b.can_place((x, y), piece), !dirs.is_empty());
            }
        }
    }
}

#[test]
fn opportunities_of_initial_board() {
    let b = Board::new();
    assert_eq!(b.opportunities(Piece::Black), vec![(2, 3), (3, 2), (4, 5), (5, 4)]);
    assert_eq!(b.opportunities(Piece::White), vec![(2, 4), (3, 5), (4, 2), (5, 3)]);
}

#[test]
fn opening_move_flips_one_stone() {
    let mut b = Board::new();
    assert!(b.place((2, 3), Piece::Black));
    assert_eq!(b.squares()[2][3], Some(Piece::Black));
    assert_eq!(b.squares()[3][3], Some(Piece::Black));
    assert_eq!(b.turn(), Piece::White);
    let score = Score::score(&b);
    assert_eq!(score.get_score(), (1, 4));
}

#[test]
fn place_count_law_over_all_openings() {
    // every legal first move places one stone and flips at least one
    let base = Board::new();
    let before = Score::score(&base);
    for pos in base.opportunities(Piece::Black) {
        let mut b = Board::new();
        assert!(b.place(pos, Piece::Black));
        let after = Score::score(&b);
        let flipped = after.black() as i32 - before.black() as i32 - 1;
        assert!(flipped >= 1);
        assert_eq!(after.white() as i32, before.white() as i32 - flipped);
    }
}

#[test]
fn illegal_placements_change_nothing() {
    let mut b = Board::new();
    // not this player's turn
    assert!(!b.place((2, 4), Piece::White));
    // off the board
    assert!(!b.place((8, 0), Piece::Black));
    // occupied
    assert!(!b.place((3, 3), Piece::Black));
    // no direction closes
    assert!(!b.place((0, 0), Piece::Black));
    assert_eq!(b.turn(), Piece::Black);
    assert_eq!(Score::score(&b).get_score(), (2, 2));
}

#[test]
fn pass_flips_turn_only() {
    let mut b = Board::new();
    b.pass();
    assert_eq!(b.turn(), Piece::White);
    b.pass();
    assert_eq!(b.turn(), Piece::Black);
    assert_eq!(Score::score(&b).get_score(), (2, 2));
}

#[test]
fn winner_undecided_while_moves_remain() {
    let b = Board::new();
    assert_eq!(Score::score(&b).winner(), None);
}

#[test]
fn winner_tie_goes_to_white() {
    let mut b = Board::new();
    // fill the board half and half: no empty square leaves no moves
    {
        let rows = b.squares_mut();
        for x in 0..8 {
            for y in 0..8 {
                rows[x][y] = Some(if x < 4 { Piece::Black } else { Piece::White });
            }
        }
    }
    let score = Score::score(&b);
    assert_eq!(score.get_score(), (32, 32));
    assert_eq!(score.winner(), Some(Piece::White));
}

#[test]
fn winner_by_stones_when_no_moves_remain() {
    let mut b = Board::new();
    {
        let rows = b.squares_mut();
        for x in 0..8 {
            for y in 0..8 {
                rows[x][y] = Some(if x == 0 { Piece::White } else { Piece::Black });
            }
        }
    }
    let score = Score::score(&b);
    assert_eq!(score.get_score(), (8, 56));
    assert_eq!(score.winner(), Some(Piece::Black));
}

#[test]
fn edge_walks_stay_on_the_board() {
    let mut b = Board::new();
    // build a line to the edge: white stones from (1,3) to (6,3) would
    // let black close from (0,3) after the right setup
    {
        let rows = b.squares_mut();
        for x in 1..7 {
            rows[x][3] = Some(Piece::White);
        }
        rows[7][3] = Some(Piece::Black);
    }
    assert!(b.can_place((0, 3), Piece::Black));
    let dirs = b.affected_directions((0, 3), Piece::Black);
    assert_eq!(dirs, vec![(1, 0)]);
    // a walk that runs off the edge closes nothing
    assert!(!b.can_place((7, 0), Piece::White));
}

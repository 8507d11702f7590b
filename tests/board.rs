use tictactoe::{Board, Field};

const F: Field = Field::Free;
const X: Field = Field::X;
const O: Field = Field::O;

// __o
// xox
// _o_
fn fixture() -> Board {
    Board::from_fields([F, F, O, X, O, X, F, O, F])
}

#[test]
fn test_is_full() {
    let board1 = fixture();
    let board2 = Board { fields: [X; 9] };
    assert_eq!(board1.is_full(), false);
    assert_eq!(board2.is_full(), true);
}

#[test]
fn test_get_free() {
    let board = fixture();
    assert_eq!(board.get_free(), vec![(0, 0), (0, 2), (1, 0), (2, 2)]);
}

#[test]
fn test_row() {
    // ___
    // xxx
    // ___
    let board = Board::from_fields([F, F, F, X, X, X, F, F, F]);
    assert_eq!(board.has_won_player(Field::X), true);
}

#[test]
fn test_col() {
    // x__
    // x__
    // x__
    let board = Board::from_fields([X, F, F, X, F, F, X, F, F]);
    assert_eq!(board.has_won_player(Field::X), true);
}

#[test]
fn test_diagonal1() {
    // x__
    // _x_
    // __x
    let board = Board::from_fields([X, F, F, F, X, F, F, F, X]);
    assert_eq!(board.has_won_player(Field::X), true);
}

#[test]
fn test_diagonal2() {
    // __x
    // _x_
    // x__
    let board = Board::from_fields([F, F, X, F, X, F, X, F, F]);
    assert_eq!(board.has_won_player(Field::X), true);
}

#[test]
fn test_check_false1() {
    // _xx
    // _x_
    // __x
    let board = Board::from_fields([F, X, X, F, X, F, F, F, X]);
    assert_eq!(board.has_won_player(Field::X), false);
}

#[test]
fn test_check_false2() {
    // xx_
    // _xx
    // x__
    let board = Board::from_fields([X, X, F, F, X, X, X, F, F]);
    assert_eq!(board.has_won_player(Field::X), false);
}

#[test]
fn new_board_is_empty() {
    let board = Board::new();
    assert_eq!(board.fields, [F; 9]);
    assert_eq!(board.get_free().len(), 9);
    assert_eq!(board.is_full(), false);
    assert_eq!(board.has_won(), Field::Free);
}

#[test]
fn get_reads_column_and_row() {
    let board = fixture();
    assert_eq!(board.get(2, 0), O);
    assert_eq!(board.get(0, 1), X);
    assert_eq!(board.get(1, 2), O);
    assert_eq!(board.get(0, 2), F);
}

#[test]
fn make_move_on_free_cell() {
    let mut board = fixture();
    assert!(board.make_move(1, 0, X));
    assert_eq!(board.fields, [F, X, O, X, O, X, F, O, F]);
}

#[test]
fn make_move_on_occupied_cell_fails() {
    let mut board = fixture();
    let before = board;
    assert!(!board.make_move(2, 0, X));
    assert_eq!(board, before);
    assert!(!board.make_move(1, 1, O));
    assert_eq!(board, before);
}

#[test]
fn set_overwrites_any_cell() {
    let mut board = fixture();
    board.set(2, 0, F);
    assert_eq!(board.get(2, 0), F);
    board.set(2, 0, X);
    assert_eq!(board.fields, [F, F, X, X, O, X, F, O, F]);
}

#[test]
fn free_cells_and_occupied_cells_make_nine() {
    for board in [fixture(), Board::new(), Board { fields: [O; 9] }] {
        let free = board.get_free();
        let occupied = board.fields.iter().filter(|f| **f != F).count();
        assert_eq!(free.len() + occupied, 9);
        for i in 0..free.len() {
            for j in 0..i {
                assert_ne!(free[i], free[j]);
            }
        }
    }
}

#[test]
fn queries_leave_board_unchanged() {
    let board = fixture();
    let before = board;
    assert_eq!(board.is_full(), board.is_full());
    assert_eq!(board.has_won(), board.has_won());
    assert_eq!(board.get_free(), board.get_free());
    assert_eq!(board, before);
}

const LINES: [[(u16, u16); 3]; 8] = [
    [(0, 0), (1, 0), (2, 0)],
    [(0, 1), (1, 1), (2, 1)],
    [(0, 2), (1, 2), (2, 2)],
    [(0, 0), (0, 1), (0, 2)],
    [(1, 0), (1, 1), (1, 2)],
    [(2, 0), (2, 1), (2, 2)],
    [(0, 0), (1, 1), (2, 2)],
    [(0, 2), (1, 1), (2, 0)],
];

#[test]
fn every_line_wins_for_each_player() {
    for player in [X, O] {
        for line in LINES {
            let mut board = Board::new();
            for (x, y) in line {
                assert!(board.make_move(x, y, player));
            }
            assert!(board.has_won_player(player));
            assert_eq!(board.has_won(), player);
            let other = if player == X { O } else { X };
            assert!(!board.has_won_player(other));
        }
    }
}

fn rotate(b: &Board) -> Board {
    let mut r = Board::new();
    for x in 0..3u16 {
        for y in 0..3u16 {
            r.set(x, y, b.get(y, 2 - x));
        }
    }
    r
}

fn mirror(b: &Board) -> Board {
    let mut r = Board::new();
    for x in 0..3u16 {
        for y in 0..3u16 {
            r.set(x, y, b.get(2 - x, y));
        }
    }
    r
}

#[test]
fn turned_and_mirrored_lines_still_win() {
    for line in LINES {
        let mut board = Board::new();
        for (x, y) in line {
            board.set(x, y, O);
        }
        let mut turned = board;
        for _ in 0..4 {
            turned = rotate(&turned);
            assert_eq!(turned.has_won(), O);
            assert_eq!(mirror(&turned).has_won(), O);
        }
    }
    let no_win = Board::from_fields([F, X, X, F, X, F, F, F, X]);
    assert_eq!(rotate(&no_win).has_won(), F);
    assert_eq!(mirror(&no_win).has_won(), F);
}

#[test]
fn both_players_with_lines_gives_x() {
    let board = Board::from_fields([X, X, X, F, F, F, O, O, O]);
    assert_eq!(board.has_won(), X);
}

#[test]
fn draw_board_is_full_without_winner() {
    // xox
    // xoo
    // oxx
    let board = Board::from_fields([X, O, X, X, O, O, O, X, X]);
    assert!(board.is_full());
    assert_eq!(board.has_won(), F);
    assert!(board.get_free().is_empty());
}

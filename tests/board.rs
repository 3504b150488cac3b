use wordsearch::board::Board;
use wordsearch::direction::Direction;
use wordsearch::solution::Solution;
use wordsearch::word::Word;
use wordsearch::PuzzleError;

#[test]
fn test_ok_board() {
    let rows = 8;
    let cols = 4;
    let _board = Board::new(rows, cols).unwrap();
}

#[test]
fn test_content_board() {
    let rows = 8;
    let cols = 4;
    let board = Board::new(rows, cols).unwrap();
    assert_eq!(board.board, vec![vec!['?'; cols]; rows])
}

#[test]
fn test_items_board() {
    let rows = 8;
    let cols = 4;
    let board = Board::new(rows, cols).unwrap();

    assert_eq!(board.board.len(), rows);
    for row in board.board {
        assert_eq!(row.len(), cols);
        for cell in row {
            assert_eq!(cell, '?');
        }
    }
}

#[test]
fn board_too_small_is_rejected() {
    assert_eq!(Board::new(3, 10).err(), Some(PuzzleError::BoardTooSmall));
    assert_eq!(Board::new(0, 0).err(), Some(PuzzleError::BoardTooSmall));
    assert_eq!(Board::new(10, 3).err(), Some(PuzzleError::BoardTooSmall));
    assert!(Board::new(4, 4).is_ok());
}

fn word(text: &str, direction: Direction, row: usize, col: usize) -> Word {
    Word::new(text.to_string(), direction, (row, col))
}

#[test]
fn place_then_remove_restores_the_grid() {
    let mut board = Board::new(4, 6).unwrap();
    let cat = word("cat", Direction::EAST(), 0, 0);
    assert!(board.is_admissible(&cat));
    board.put_word_on_board(&cat);
    assert_eq!(board.board[0][0], 'c');
    assert_eq!(board.board[0][1], 'a');
    assert_eq!(board.board[0][2], 't');
    assert_eq!(board.contributions[0][2], Some(0));
    assert_eq!(board.tracker, 1);

    let car = word("car", Direction::EAST(), 0, 0);
    assert!(!board.is_admissible(&car));

    board.remove_word_from_board(&cat);
    assert_eq!(board.board, vec![vec!['?'; 6]; 4]);
    assert_eq!(board.contributions, vec![vec![None; 6]; 4]);
    assert_eq!(board.tracker, 0);
}

#[test]
fn removal_keeps_letters_of_earlier_words() {
    let mut board = Board::new(4, 6).unwrap();
    let cat = word("cat", Direction::EAST(), 0, 0);
    let tan = word("tan", Direction::SOUTH(), 0, 2);
    board.put_word_on_board(&cat);
    assert!(board.is_admissible(&tan));
    board.put_word_on_board(&tan);
    assert_eq!(board.board[1][2], 'a');
    assert_eq!(board.board[2][2], 'n');
    assert_eq!(board.contributions[0][2], Some(0));
    assert_eq!(board.contributions[2][2], Some(1));

    board.remove_word_from_board(&tan);
    assert_eq!(board.board[0][2], 't');
    assert_eq!(board.contributions[0][2], Some(0));
    assert_eq!(board.board[1][2], '?');
    assert_eq!(board.board[2][2], '?');
    assert_eq!(board.board[0][0], 'c');
    assert_eq!(board.tracker, 1);
}

#[test]
fn admissibility_edges() {
    let board = Board::new(4, 4).unwrap();
    assert!(!board.is_admissible(&word("cats", Direction::CENTER(), 0, 0)));
    assert!(!board.is_admissible(&word("catsy", Direction::EAST(), 0, 0)));
    assert!(!board.is_admissible(&word("cat", Direction::WEST(), 0, 1)));
    assert!(board.is_admissible(&word("cat", Direction::WEST(), 0, 2)));
    assert!(board.is_admissible(&word("cats", Direction::SOUTHEAST(), 0, 0)));
    assert!(!board.is_admissible(&word("c?t", Direction::EAST(), 0, 0)));
}

#[test]
fn populated_only_without_unknown_cells() {
    let mut board = Board::new(4, 4).unwrap();
    assert!(!board.is_board_populated());
    for r in 0..4 {
        board.put_word_on_board(&word("abcd", Direction::EAST(), r, 0));
    }
    assert!(board.is_board_populated());
}

#[test]
fn sequences_from_a_cell() {
    let mut board = Board::new(4, 4).unwrap();
    board.put_word_on_board(&word("ab", Direction::EAST(), 0, 1));
    let seqs = board.get_sequences_from_position(0, 0).unwrap();
    assert_eq!(seqs.len(), 9);
    assert_eq!(seqs[Direction::EAST().getIndex()], "?ab?");
    assert_eq!(seqs[Direction::SOUTH().getIndex()], "????");
    assert_eq!(seqs[Direction::SOUTHEAST().getIndex()], "????");
    assert_eq!(seqs[Direction::CENTER().getIndex()], "");
    assert_eq!(seqs[Direction::NORTH().getIndex()], "?");
    assert_eq!(seqs[Direction::WEST().getIndex()], "?");
}

#[test]
fn rays_stop_at_solution_cells_and_skip_full_rays() {
    let mut board = Board::new(4, 4).unwrap();
    let mut solution = Solution::new("a", 4, 4).unwrap();
    solution.locations.push((2, 'a'));
    board.put_solution_on_board(&solution);
    assert_eq!(board.board[0][2], '*');
    assert!(board.get_sequences_from_position(0, 2).is_none());
    let seqs = board.get_sequences_from_position(0, 0).unwrap();
    assert_eq!(seqs[Direction::EAST().getIndex()], "??");
    board.put_word_on_board(&word("xy", Direction::EAST(), 0, 0));
    assert_eq!(board.get_current_sequence(0, 0, Direction::EAST()), None);
    assert_eq!(board.get_current_sequence(0, 0, Direction::CENTER()), None);
    assert_eq!(board.get_current_sequence(0, 0, Direction::SOUTH()), Some("x???".to_string()));
}

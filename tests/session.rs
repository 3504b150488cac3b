use std::collections::HashSet;
use wordsearch::controller::{Controller, LoopState};
use wordsearch::direction::Direction;
use wordsearch::wfc::WFC;
use wordsearch::word::Word;
use wordsearch::PuzzleError;

fn small_dictionary() -> Vec<String> {
    let mut words = Vec::new();
    for len in 3..5 {
        for bits in 0..(1u32 << len) {
            let w: String = (0..len)
                .map(|i| if bits & (1 << i) != 0 { 'x' } else { 'y' })
                .collect();
            words.push(w);
        }
    }
    words.push("no".to_string());
    words
}

#[test]
fn session_errors_come_in_order() {
    let dict = small_dictionary();
    assert_eq!(
        Controller::new("stolicka", 3, 10, dict.clone()).err(),
        Some(PuzzleError::BoardTooSmall)
    );
    assert_eq!(
        Controller::new("  42 ", 4, 4, dict.clone()).err(),
        Some(PuzzleError::EmptySolution)
    );
    assert_eq!(
        Controller::new("abcdefghij", 4, 4, dict.clone()).err(),
        Some(PuzzleError::SolutionTooLong)
    );
}

#[test]
fn empty_dictionary_cannot_fill() {
    let mut controller = Controller::new("ab", 4, 4, Vec::new()).unwrap();
    assert_eq!(controller.state, LoopState::INITIALIZED);
    let before = controller.board.board.clone();
    assert_eq!(controller.perform_action(), Err(PuzzleError::FillInfeasible));
    assert_eq!(controller.state, LoopState::FAILED);
    assert_eq!(controller.board.board, before);
    assert!(controller.history.is_empty());
}

#[test]
fn new_session_marks_the_phrase() {
    let controller = Controller::new("ab", 4, 6, small_dictionary()).unwrap();
    assert_eq!(controller.solution.processed(), "ab");
    assert_eq!(controller.solution.locations.len(), 2);
    let stars: usize = controller
        .board
        .board
        .iter()
        .map(|row| row.iter().filter(|c| **c == '*').count())
        .sum();
    assert_eq!(stars, 2);
    for (p, _) in &controller.solution.locations {
        assert_eq!(controller.board.board[p / 6][p % 6], '*');
    }
    assert_eq!(controller.dictionary.search("???").len(), 8);
    assert!(controller.dictionary.search("no").is_empty());
}

#[test]
fn filled_grid_is_consistent() {
    let mut successes = 0;
    for _ in 0..30 {
        let mut controller = match Controller::new("ab", 4, 4, small_dictionary()) {
            Ok(c) => c,
            Err(e) => {
                assert_eq!(e, PuzzleError::SolutionInfeasible);
                continue;
            }
        };
        if controller.perform_action().is_err() {
            assert_eq!(controller.state, LoopState::FAILED);
            continue;
        }
        successes += 1;
        assert_eq!(controller.state, LoopState::FINISHED);
        let stars: HashSet<usize> =
            controller.solution.locations.iter().map(|(p, _)| *p).collect();
        for r in 0..4 {
            for c in 0..4 {
                let cell = controller.board.board[r][c];
                if stars.contains(&(r * 4 + c)) {
                    assert_eq!(cell, '*');
                } else {
                    assert!(cell == 'x' || cell == 'y');
                }
            }
        }
        let mut seen = HashSet::new();
        for w in &controller.history {
            assert!(seen.insert(w.word.clone()));
            assert_ne!(w.direction, Direction::CENTER());
            let (dr, dc) = (w.direction.getRow() as i64, w.direction.getCol() as i64);
            for (i, ch) in w.word.chars().enumerate() {
                let r = w.coords.0 as i64 + dr * i as i64;
                let c = w.coords.1 as i64 + dc * i as i64;
                assert!(r >= 0 && c >= 0 && r < 4 && c < 4);
                assert_eq!(controller.board.board[r as usize][c as usize], ch);
            }
        }
    }
    assert!(successes > 0);
}

#[test]
fn candidates_of_a_cell() {
    let dict: Vec<String> = ["cat", "cot", "dog", "cats"].iter().map(|w| w.to_string()).collect();
    let mut controller = Controller::new("ab", 4, 4, dict).unwrap();
    let mut seqs = vec![String::new(); 9];
    seqs[Direction::EAST().getIndex()] = "c?t".to_string();
    seqs[Direction::SOUTH().getIndex()] = "???".to_string();
    seqs[Direction::WEST().getIndex()] = "??".to_string();
    let used = vec!["cot".to_string()];
    let words = WFC::calculate_entropy_for_acell(
        2,
        1,
        &seqs,
        &controller.dictionary,
        &used,
        &mut controller.sequence_cache,
    );
    let got: HashSet<(String, Direction)> =
        words.iter().map(|w| (w.word.clone(), w.direction)).collect();
    let expected: HashSet<(String, Direction)> = HashSet::from([
        ("cat".to_string(), Direction::EAST()),
        ("cat".to_string(), Direction::SOUTH()),
        ("dog".to_string(), Direction::SOUTH()),
    ]);
    assert_eq!(got, expected);
    assert_eq!(words.len(), 3);
    assert!(words.iter().all(|w| w.coords == (2, 1) && w.length == 3));
    let again = WFC::calculate_entropy_for_acell(
        2,
        1,
        &seqs,
        &controller.dictionary,
        &used,
        &mut controller.sequence_cache,
    );
    assert_eq!(again.len(), 3);
}

fn placement(text: &str) -> Word {
    Word::new(text.to_string(), Direction::EAST(), (0, 0))
}

#[test]
fn lowest_entropy_selection() {
    let states: Vec<Option<Vec<Word>>> = vec![
        None,
        Some(vec![placement("aaa"), placement("bbb"), placement("ccc")]),
        Some(vec![]),
        Some(vec![placement("ddd"), placement("eee")]),
        Some(vec![placement("fff"), placement("ggg")]),
    ];
    assert_eq!(WFC::find_lowest_entropy(&states), 2);
    let pooled: Vec<String> =
        WFC::lowest_entropy_words(&states, 2).iter().map(|w| w.word.clone()).collect();
    assert_eq!(pooled, vec!["ddd", "eee", "fff", "ggg"]);
    let mut random: Vec<String> =
        WFC::find_random_lowest_entropy_words(&states).iter().map(|w| w.word.clone()).collect();
    random.sort();
    assert_eq!(random, vec!["ddd", "eee", "fff", "ggg"]);

    let empty: Vec<Option<Vec<Word>>> = vec![None, Some(vec![])];
    assert_eq!(WFC::find_lowest_entropy(&empty), 0);
    assert!(WFC::find_random_lowest_entropy_words(&empty).is_empty());
}

#[test]
fn directions_have_fixed_offsets() {
    let all = Direction::DIRECTION_MATRIX();
    let offsets: Vec<(i32, i32)> = all.iter().map(|d| (d.getRow(), d.getCol())).collect();
    assert_eq!(
        offsets,
        vec![(-1, -1), (-1, 0), (-1, 1), (0, -1), (0, 0), (0, 1), (1, -1), (1, 0), (1, 1)]
    );
    for (i, d) in all.iter().enumerate() {
        assert_eq!(d.getIndex(), i);
    }
    assert_eq!(Direction::NORTHWEST(), all[0]);
    assert_eq!(Direction::NORTH(), all[1]);
    assert_eq!(Direction::NORTHEAST(), all[2]);
    assert_eq!(Direction::WEST(), all[3]);
    assert_eq!(Direction::CENTER(), all[4]);
    assert_eq!(Direction::EAST(), all[5]);
    assert_eq!(Direction::SOUTHWEST(), all[6]);
    assert_eq!(Direction::SOUTH(), all[7]);
    assert_eq!(Direction::SOUTHEAST(), all[8]);
}

#[test]
fn one_letter_phrase_always_starts() {
    for _ in 0..20 {
        let controller = Controller::new("  A1 ", 4, 4, Vec::new()).unwrap();
        assert_eq!(controller.solution.locations.len(), 1);
        assert!(controller.states.iter().all(|s| s.is_none()));
        assert!(controller.history.is_empty());
    }
}

use wordsearch::solution::Solution;
use wordsearch::PuzzleError;

#[test]
fn solution_test_word() {
    let solution = Solution::new("bike", 5, 5).unwrap();

    assert_eq!(solution.processed(), "bike")
}

#[test]
fn test_case_insensitive() {
    let solution = Solution::new("BIKE", 5, 5).unwrap();

    assert_eq!(solution.processed(), "bike")
}

#[test]
fn test_sentence() {
    let solution = Solution::new("I was driving my bike down the road", 100, 100).unwrap();

    assert_eq!(solution.processed(), "iwasdrivingmybikedowntheroad")
}

#[test]
fn test_numbers() {
    let solution = Solution::new("I was driving my 2 bikes down the 14 road", 100, 100).unwrap();

    assert_eq!(solution.processed(), "iwasdrivingmybikesdowntheroad")
}

#[test]
fn test_special() {
    let solution =
        Solution::new("I was driving my bike, which is blue, down the road!", 100, 100).unwrap();

    assert_eq!(solution.processed(), "iwasdrivingmybikewhichisbluedowntheroad")
}

#[test]
fn test_utf() {
    let solution =
        Solution::new("I was driving my Škoda bike, which is blue, down the road!", 100, 100)
            .unwrap();

    assert_eq!(solution.processed(), "iwasdrivingmyškodabikewhichisbluedowntheroad")
}

#[test]
fn test_is_valid() {
    let mut solution = Solution::new("testtesttest", 4, 6).unwrap();
    let result = solution.calculate_constraints();

    if result {
        let mut prev_item: usize = 0;
        for (item, _) in &solution.locations {
            let range = prev_item..*item;
            if range.count() > 5 {
                assert!(false)
            }

            prev_item = *item;
        }
    }

    assert!(true)
}

#[test]
fn empty_and_blank_phrases_are_rejected() {
    assert_eq!(Solution::new("      ", 5, 5).err(), Some(PuzzleError::EmptySolution));
    assert_eq!(Solution::new("", 5, 5).err(), Some(PuzzleError::EmptySolution));
    assert_eq!(Solution::new("12 !?", 5, 5).err(), Some(PuzzleError::EmptySolution));
}

#[test]
fn long_phrases_are_rejected() {
    assert_eq!(
        Solution::new("This is looong very long text", 5, 5).err(),
        Some(PuzzleError::SolutionTooLong)
    );
    assert_eq!(Solution::new("abcdefghij", 4, 4).err(), Some(PuzzleError::SolutionTooLong));
    assert!(Solution::new("abcdefgh", 4, 4).is_ok());
}

#[test]
fn processed_phrase_checks() {
    assert_eq!(
        Solution::from_processed(vec![], 4, 4).err(),
        Some(PuzzleError::EmptySolution)
    );
    assert_eq!(
        Solution::from_processed(vec!['a'; 9], 4, 4).err(),
        Some(PuzzleError::SolutionTooLong)
    );
    let s = Solution::from_processed(vec!['a'; 8], 4, 4).unwrap();
    assert_eq!(s.processed(), "aaaaaaaa");
    assert!(s.locations.is_empty());
    assert_eq!(Solution::keep_letters(&vec!['a', '1', ' ', 'š', '!']), vec!['a', 'š']);
}

fn taken(solution: &Solution, r: i64, c: i64) -> bool {
    solution.locations.iter().any(|(p, _)| *p as i64 == r * solution.cols as i64 + c)
}

fn spaced(solution: &Solution, p: usize) -> bool {
    let rows = solution.rows as i64;
    let cols = solution.cols as i64;
    let r = (p / solution.cols) as i64;
    let c = (p % solution.cols) as i64;
    let steps = [(-1, -1), (-1, 0), (-1, 1), (0, -1), (0, 1), (1, -1), (1, 0), (1, 1)];
    steps.iter().any(|(dr, dc)| {
        (1..3).all(|k| {
            let rr = r + dr * k;
            let cc = c + dc * k;
            rr >= 0 && cc >= 0 && rr < rows && cc < cols && !taken(solution, rr, cc)
        })
    })
}

#[test]
fn chosen_cells_are_spaced_and_ordered() {
    for _ in 0..20 {
        let mut solution = Solution::new("testtesttest", 4, 6).unwrap();
        if solution.calculate_constraints() {
            assert_eq!(solution.locations.len(), 12);
            let letters: String = solution.locations.iter().map(|(_, c)| *c).collect();
            assert_eq!(letters, "testtesttest");
            for (i, (p, _)) in solution.locations.iter().enumerate() {
                assert!(spaced(&solution, *p));
                assert!(*p >= 2 * i && *p < 2 * i + 2);
            }
        }
    }
}

#[test]
fn sparse_phrase_is_always_placed() {
    for _ in 0..20 {
        let mut solution = Solution::new("ab", 6, 6).unwrap();
        assert!(solution.calculate_constraints());
        assert_eq!(solution.locations.len(), 2);
        assert!(solution.locations[0].0 < 18);
        assert!(solution.locations[1].0 >= 18);
    }
}

#[test]
fn crowded_row_cannot_be_placed() {
    for _ in 0..20 {
        let mut solution = Solution::new("abc", 1, 6).unwrap();
        assert!(!solution.calculate_constraints());
    }
}

#[test]
fn placement_takes_the_first_acceptable_cell() {
    let mut solution = Solution::new("ab", 1, 4).unwrap();
    assert!(solution.place_in_order(&vec![1, 0]));
    assert_eq!(solution.locations, vec![(1, 'a')]);
    assert!(!solution.place_in_order(&vec![2, 3]));
    assert_eq!(solution.locations, vec![(1, 'a')]);

    let mut other = Solution::new("ab", 1, 4).unwrap();
    assert!(other.place_in_order(&vec![0]));
    assert!(other.place_in_order(&vec![2, 3]));
    assert_eq!(other.locations, vec![(0, 'a'), (3, 'b')]);
}

#[test]
fn a_chosen_cell_is_not_chosen_again() {
    let mut solution = Solution::new("ab", 1, 8).unwrap();
    assert!(solution.place_in_order(&vec![0]));
    assert!(!solution.place_in_order(&vec![0]));
    assert!(solution.place_in_order(&vec![0, 5]));
    assert_eq!(solution.locations, vec![(0, 'a'), (5, 'b')]);
}

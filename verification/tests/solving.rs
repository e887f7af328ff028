use bananagrams::grid::Grid;
use bananagrams::search::solve;

fn chars(s: &str) -> Vec<char> {
    s.chars().collect()
}

fn dict(words: &[&str]) -> Vec<Vec<char>> {
    words.iter().map(|w| chars(w)).collect()
}

// flood-fill check that the board's letters form one component
fn one_component(board: &Grid) -> bool {
    let rows = board.num_rows();
    let cols = board.num_cols();
    let mut letters = Vec::new();
    for r in 0..rows {
        for c in 0..cols {
            if board.get(r, c) != ' ' {
                letters.push((r, c));
            }
        }
    }
    if letters.is_empty() {
        return true;
    }
    let mut seen = vec![false; letters.len()];
    let mut stack = vec![0usize];
    seen[0] = true;
    while let Some(i) = stack.pop() {
        let (r, c) = letters[i];
        for (j, &(r2, c2)) in letters.iter().enumerate() {
            if !seen[j] && r.abs_diff(r2) + c.abs_diff(c2) == 1 {
                seen[j] = true;
                stack.push(j);
            }
        }
    }
    seen.iter().all(|&s| s)
}

#[test]
fn single_word_solution() {
    // one horizontal word is the whole solution: area 1 x 3
    let result = solve(chars("cat"), dict(&["cat"]), false);
    let (board, area) = result.expect("a solution exists");
    assert_eq!(area, 3);
    assert_eq!(board.bounding_box_area(), 3);
    assert!(one_component(&board));
}

#[test]
fn leftover_tile_blocks_short_word() {
    // "do" alone cannot consume the 'g'; "dog" can
    let result = solve(chars("dog"), dict(&["dog", "do"]), false);
    let (_, area) = result.expect("a solution exists");
    assert_eq!(area, 3);
}

#[test]
fn no_tiles_no_solution() {
    let result = solve(chars(""), dict(&["cat"]), false);
    assert!(result.is_none());
}

#[test]
fn unspellable_dictionary_no_solution() {
    let result = solve(chars("xyz"), dict(&["cat"]), false);
    assert!(result.is_none());
}

#[test]
fn crossing_words_solution() {
    // "cat" and "tab" must cross on a shared letter: five tiles in a
    // 3 x 3 bounding box, area 9
    let result = solve(chars("catab"), dict(&["cat", "tab"]), false);
    let (board, area) = result.expect("a solution exists");
    assert_eq!(area, 9);
    assert_eq!(board.bounding_box_area(), 9);
    assert!(one_component(&board));
}

#[test]
fn rerun_same_area() {
    // the search is a function of its inputs: equal runs, equal outcome
    let first = solve(chars("dog"), dict(&["dog", "do"]), false);
    let second = solve(chars("dog"), dict(&["dog", "do"]), false);
    match (first, second) {
        (Some((_, a1)), Some((_, a2))) => assert_eq!(a1, a2),
        (None, None) => {},
        _ => panic!("one run found a solution, the other did not"),
    }
    let third = solve(chars("xyz"), dict(&["cat"]), true);
    let fourth = solve(chars("xyz"), dict(&["cat"]), true);
    assert!(third.is_none() && fourth.is_none());
}

#[test]
fn eager_checking_same_area() {
    let lazy = solve(chars("cat"), dict(&["cat"]), false);
    let eager = solve(chars("cat"), dict(&["cat"]), true);
    assert_eq!(lazy.expect("found").1, eager.expect("found").1);
}

#[test]
fn validity_checker_accepts_and_rejects() {
    // a board holding exactly "cat" in one row
    let mut board = Grid::new(6, 6);
    board.insert(2, 1, 'c');
    board.insert(2, 2, 'a');
    board.insert(2, 3, 't');
    assert!(board.valid_bananagrams(&dict(&["cat"])));
    assert!(!board.valid_bananagrams(&dict(&["dog"])));
    // single letters never cause rejection, whatever the dictionary
    let mut lonely = Grid::new(4, 4);
    lonely.insert(1, 1, 'q');
    lonely.insert(3, 3, 'z');
    assert!(lonely.valid_bananagrams(&dict(&["cat"])));
    // a two-letter run not in the dictionary rejects the board
    let mut pair = Grid::new(4, 4);
    pair.insert(1, 1, 'q');
    pair.insert(1, 2, 'z');
    assert!(!pair.valid_bananagrams(&dict(&["cat"])));
}

#[test]
fn empty_dictionary_no_solution() {
    let result = solve(chars("cat"), dict(&[]), false);
    assert!(result.is_none());
}

#[test]
fn single_tile_single_letter_word() {
    // a lone letter is a valid board: a single-letter run never rejects
    let result = solve(chars("a"), dict(&["a"]), false);
    let (_, area) = result.expect("a solution exists");
    assert_eq!(area, 1);
}

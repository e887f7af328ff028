use bananagrams::fit::fits_in_row;
use bananagrams::grid::{Direction, Grid};
use bananagrams::tiles::{can_be_made_with, count_char};

fn chars(s: &str) -> Vec<char> {
    s.chars().collect()
}

#[test]
fn fits_in_row_1() {
    let tiles = chars("ab");
    let row = chars("   a c ");
    assert!(fits_in_row(&chars("abc"), &tiles, &row));
    assert!(!fits_in_row(&chars("abcb"), &tiles, &row));
    assert!(fits_in_row(&chars("cab"), &tiles, &row));
    assert!(!fits_in_row(&chars("abac"), &tiles, &row));
}

#[test]
fn fits_in_row_2() {
    let tiles = chars("ab");
    let row = chars("a a");
    let good_words = vec!["aa", "aba", "a"];
    let bad_words = vec!["abaca", "cabac", "abbabababababbaa"];
    for word in good_words {
        assert!(fits_in_row(&chars(word), &tiles, &row));
    }
    for word in bad_words {
        assert!(!fits_in_row(&chars(word), &tiles, &row));
    }
}

#[test]
fn spelling_from_tiles() {
    assert!(can_be_made_with(&chars("cat"), &chars("tac")));
    assert!(can_be_made_with(&chars("aa"), &chars("aab")));
    assert!(!can_be_made_with(&chars("aa"), &chars("ab")));
    assert!(!can_be_made_with(&chars("catt"), &chars("cat")));
    assert!(can_be_made_with(&chars(""), &chars("")));
}

#[test]
fn counting_letters() {
    assert_eq!(count_char(&chars("banana"), 'a'), 3);
    assert_eq!(count_char(&chars("banana"), 'b'), 1);
    assert_eq!(count_char(&chars("banana"), 'z'), 0);
    assert_eq!(count_char(&chars(""), 'a'), 0);
}

#[test]
fn grid_fits_in_row() {
    let mut board = Grid::new(8, 8);
    // place "a" and "c" with a gap, as in the line "   a c  "
    board.insert(2, 3, 'a');
    board.insert(2, 5, 'c');
    let tiles = chars("ab");
    assert!(board.fits_in_row(&chars("cab"), 2, Direction::Horizontal, &tiles));
    assert!(!board.fits_in_row(&chars("abac"), 2, Direction::Horizontal, &tiles));
}

#[test]
fn word_placements_respect_conflicts() {
    let mut board = Grid::new(8, 8);
    // the word "cat" lies across row 4
    board.insert(4, 3, 'c');
    board.insert(4, 4, 'a');
    board.insert(4, 5, 't');
    // a vertical word through the 'a' must reuse it, write the rest,
    // and stand clear of other letters
    let batches = board.word_placements_for(&chars("art"), 4, Direction::Vertical);
    assert!(batches.len() >= 1);
    for batch in &batches {
        assert!(batch.len() == 2);
        for pl in batch {
            assert_eq!(pl.col, 4);
            assert!(board.get(pl.row, pl.col) == ' ');
        }
    }
    // nothing places a word that conflicts everywhere
    let none = board.word_placements_for(&chars("ccc"), 4, Direction::Horizontal);
    assert_eq!(none.len(), 0);
}

use bananagrams::grid::Grid;

#[test]
fn bounding_box() {
    let mut grid = Grid::new(10, 10);
    grid.insert(5, 5, 'o');
    let bounds = grid.bounding_box().unwrap();
    assert_eq!(bounds.min_row, 5);
    assert_eq!(bounds.max_row, 5);
    assert_eq!(bounds.min_col, 5);
    assert_eq!(bounds.max_col, 5);
    grid.insert(7, 6, 'o');
    let bounds = grid.bounding_box().unwrap();
    assert_eq!(bounds.min_row, 5);
    assert_eq!(bounds.max_row, 7);
    assert_eq!(bounds.min_col, 5);
    assert_eq!(bounds.max_col, 6);
    grid.insert(3, 4, 'o');
    let bounds = grid.bounding_box().unwrap();
    assert_eq!(bounds.min_row, 3);
    assert_eq!(bounds.max_row, 7);
    assert_eq!(bounds.min_col, 4);
    assert_eq!(bounds.max_col, 6);
    assert_eq!(grid.bounding_box_area(), 15);
}

#[test]
fn bounding_box_empty() {
    let grid = Grid::new(4, 4);
    assert!(grid.bounding_box().is_none());
    assert_eq!(grid.bounding_box_area(), 0);
}

#[test]
fn hash_grids() {
    let mut board = Grid::new(5, 5);
    let empty_hash = board.hash();
    board.insert(1, 1, 'h');
    assert!(board.hash() != empty_hash);
    board.insert(1, 1, ' ');
    assert!(board.hash() == empty_hash);
    let board2 = Grid::new(5, 5);
    assert!(board2.hash() == empty_hash);
}

#[test]
fn hash_offset() {
    let mut board = Grid::new(5, 5);
    let empty_hash = board.hash();
    board.insert(1, 1, 'h');
    board.insert(1, 2, 'i');
    board.insert(2, 1, 'i');
    let hi_hash = board.hash();
    assert!(board.hash() != empty_hash);
    board.clear();
    assert!(board.hash() == empty_hash);
    board.insert(2, 2, 'h');
    board.insert(2, 3, 'i');
    board.insert(3, 2, 'i');
    assert!(board.hash() == hi_hash);
}

#[test]
fn hash_transpose() {
    let mut board = Grid::new(5, 5);
    let empty_hash = board.hash();
    board.insert(1, 1, 'h');
    board.insert(1, 2, 'i');
    board.insert(2, 1, 'e');
    board.insert(3, 1, 'y');
    let hi_hey_hash = board.hash();
    assert!(board.hash() != empty_hash);
    board.clear();
    assert!(board.hash() == empty_hash);
    board.insert(1, 1, 'h');
    board.insert(1, 2, 'e');
    board.insert(1, 3, 'y');
    board.insert(2, 1, 'i');
    assert!(board.hash() == hi_hey_hash);
    board.insert(1, 1, ' ');
    assert!(board.hash() != hi_hey_hash);
}

#[test]
fn duplicate_is_independent() {
    let mut board = Grid::new(3, 3);
    board.insert(1, 1, 'x');
    let copy = board.duplicate();
    board.insert(0, 0, 'y');
    assert_eq!(copy.get(1, 1), 'x');
    assert_eq!(copy.get(0, 0), ' ');
    assert_eq!(board.get(0, 0), 'y');
}

#[test]
fn lines_read_back() {
    let mut board = Grid::new(3, 4);
    board.insert(1, 0, 'a');
    board.insert(1, 2, 'b');
    board.insert(2, 2, 'c');
    let row = board.words_at(1, bananagrams::grid::Direction::Horizontal);
    assert_eq!(row, vec!['a', ' ', 'b', ' ']);
    let col = board.words_at(2, bananagrams::grid::Direction::Vertical);
    assert_eq!(col, vec![' ', 'b', 'c']);
}

#[test]
fn midpoint_of_even_board() {
    let board = Grid::new(6, 6);
    assert_eq!(board.midpoint(), (3, 3));
}

//! A solver for the smallest-area crossword-style tile layout problem:
//! given a multiset of letter tiles and a dictionary, search for the
//! rectangular board of minimum bounding-box area on which every tile is
//! placed and every maximal run of two or more letters is a dictionary word.
pub mod args;
pub mod canonical;
pub mod check;
pub mod connectivity;
pub mod fit;
pub mod grid;
pub mod placements;
pub mod search;
pub mod tiles;

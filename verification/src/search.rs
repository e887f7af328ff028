//! The recursive backtracking search for the smallest-area valid board.
//!
//! Each frame applies one batch of placements, prunes by canonical-state
//! deduplication, by bounding-box area against the incumbent, and
//! (optionally) by eager validity checking, then recurses over every
//! accepted placement along every row and column of the occupied region.
//! Throughout, the tile arithmetic balances — letters that leave the pool
//! appear on the board, never more, never fewer — and the board under
//! search stays one connected crossword component.
use vstd::prelude::*;

use crate::canonical::spec_hash;
use crate::check::board_valid;
use crate::connectivity::{
    connected_board, lemma_batch_keeps_connected, lemma_first_word_connected, occ_at,
};
use crate::grid::{blank, has_letter, spec_area, Direction, Grid, LetterPlacement};
use crate::placements::{
    apply_batch_spec, batch_for, batch_is_sound, batch_wf, lemma_batch_prefix_props, place_word_at,
    placement_ok, word_row_batch,
};
use crate::tiles::{
    can_be_made_with, can_spell, count_in, lemma_count_in_concat, lemma_count_in_remove,
    lemma_count_in_zero,
};
use std::collections::HashSet;

verus! {

broadcast use vstd::std_specs::hash::group_hash_axioms;

/// The letters a batch of placements would consume.
pub open spec fn batch_letters(b: Seq<LetterPlacement>) -> Seq<char> {
    b.map_values(|pl: LetterPlacement| pl.letter)
}

/// Occurrences of `c` among all cells of the board.
pub open spec fn grid_count(g: Seq<Seq<char>>, c: char) -> nat
    decreases g.len(),
{
    if g.len() == 0 {
        0
    } else {
        grid_count(g.drop_last(), c) + count_in(g.last(), c)
    }
}

/// Number of cells the board has in all.
pub open spec fn total_cells(g: Seq<Seq<char>>) -> int
    decreases g.len(),
{
    if g.len() == 0 {
        0
    } else {
        total_cells(g.drop_last()) + g.last().len()
    }
}

/// Writing one cell never changes how many cells there are.
proof fn lemma_total_cells_update(g: Seq<Seq<char>>, r: int, row2: Seq<char>)
    requires
        0 <= r < g.len(),
        row2.len() == g[r].len(),
    ensures
        total_cells(g.update(r, row2)) == total_cells(g),
    decreases g.len(),
{
    let g2 = g.update(r, row2);
    if r < g.len() - 1 {
        lemma_total_cells_update(g.drop_last(), r, row2);
        assert(g2.drop_last() =~= g.drop_last().update(r, row2));
        assert(g2.last() == g.last());
        assert(g.drop_last()[r] == g[r]);
    } else {
        assert(g2.drop_last() =~= g.drop_last());
        assert(g2.last() == row2);
    }
}

/// On a board with no letters, every cell counts as a blank.
proof fn lemma_grid_count_blank_total(g: Seq<Seq<char>>)
    requires
        forall|r: int, c: int| 0 <= r < g.len() && 0 <= c < g[r].len() ==> g[r][c] == blank(),
    ensures
        grid_count(g, blank()) == total_cells(g),
    decreases g.len(),
{
    if g.len() > 0 {
        lemma_grid_count_blank_total(g.drop_last());
        crate::tiles::lemma_count_in_all(g.last(), blank());
        assert forall|c: int| 0 <= c < g.last().len() implies g.last()[c] == blank() by {
            assert(g[g.len() - 1][c] == blank());
        }
    }
}

/// How many of the first `n` row indices fall inside `[minr, maxr]`.
pub open spec fn rows_in(n: int, minr: int, maxr: int) -> int
    decreases n,
{
    if n <= 0 {
        0
    } else {
        rows_in(n - 1, minr, maxr) + (if minr <= n - 1 <= maxr {
            1int
        } else {
            0int
        })
    }
}

proof fn lemma_rows_in_bound(n: int, minr: int, maxr: int)
    requires
        minr <= maxr,
    ensures
        rows_in(n, minr, maxr) >= 0,
        n <= maxr + 1 ==> rows_in(n, minr, maxr) <= (if n >= minr {
            n - minr
        } else {
            0int
        }),
        rows_in(n, minr, maxr) <= maxr + 1 - minr,
    decreases n,
{
    if n > 0 {
        lemma_rows_in_bound(n - 1, minr, maxr);
    }
}

/// Every letter lies in the bounding box, so the letters cannot
/// outnumber the box's cells.
proof fn lemma_letters_bound(g: Seq<Seq<char>>, t: (int, int, int, int), cols: int)
    requires
        forall|r: int, c: int|
            0 <= r < g.len() && 0 <= c < g[r].len() && g[r][c] != blank() ==> t.0 <= r <= t.1
                && t.2 <= c <= t.3,
        0 <= t.2 <= t.3 < cols,
        forall|r: int| 0 <= r < g.len() ==> (#[trigger] g[r]).len() == cols,
    ensures
        total_cells(g) - grid_count(g, blank()) <= rows_in(g.len() as int, t.0, t.1) * (t.3 - t.2
            + 1),
    decreases g.len(),
{
    if g.len() > 0 {
        let head = g.drop_last();
        assert forall|r: int, c: int|
            0 <= r < head.len() && 0 <= c < head[r].len() && head[r][c] != blank() implies t.0 <= r
            <= t.1 && t.2 <= c <= t.3 by {
            assert(head[r] == g[r]);
        }
        assert forall|r: int| 0 <= r < head.len() implies (#[trigger] head[r]).len() == cols by {
            assert(head[r] == g[r]);
        }
        lemma_letters_bound(head, t, cols);
        let row = g.last();
        let rr = g.len() - 1;
        let width = t.3 - t.2 + 1;
        if t.0 <= rr <= t.1 {
            // letters of this row sit between the box's columns
            let left = row.take(t.2);
            let mid = row.subrange(t.2, t.3 + 1);
            let right = row.skip(t.3 + 1);
            assert(row =~= left + (mid + right));
            lemma_count_in_concat(left, mid + right, blank());
            lemma_count_in_concat(mid, right, blank());
            crate::tiles::lemma_count_in_all(left, blank());
            crate::tiles::lemma_count_in_all(right, blank());
            assert forall|c: int| 0 <= c < left.len() implies left[c] == blank() by {
                assert(left[c] == g[rr][c]);
            }
            assert forall|c: int| 0 <= c < right.len() implies right[c] == blank() by {
                assert(right[c] == g[rr][t.3 + 1 + c]);
            }
            crate::tiles::lemma_count_in_le_len(mid, blank());
            assert(row.len() - count_in(row, blank()) <= width);
            assert((rows_in(rr, t.0, t.1) + 1) * width == rows_in(rr, t.0, t.1) * width + width)
                by (nonlinear_arith);
        } else {
            // a row outside the box holds no letter at all
            assert forall|c: int| 0 <= c < row.len() implies row[c] == blank() by {
                assert(g[rr][c] == row[c]);
                if g[rr][c] != blank() {
                    assert(t.0 <= rr <= t.1);
                }
            }
            crate::tiles::lemma_count_in_all(row, blank());
        }
    }
}

/// A board's bounding-box area is at least its number of letters.
pub proof fn lemma_area_ge_letters(g: Seq<Seq<char>>, cols: int)
    requires
        forall|r: int| 0 <= r < g.len() ==> (#[trigger] g[r]).len() == cols,
    ensures
        spec_area(g) >= total_cells(g) - grid_count(g, blank()),
{
    if !has_letter(g) {
        assert forall|r: int, c: int|
            0 <= r < g.len() && 0 <= c < g[r].len() implies g[r][c] == blank() by {
            if g[r][c] != blank() {
                assert(crate::grid::occupied(g, r, c));
            }
        }
        lemma_grid_count_blank_total(g);
    } else {
        crate::grid::lemma_bbox_exists(g);
        let t = crate::grid::bbox_of(g);
        let e4 = choose|r: int|
            0 <= r < g.len() && t.3 < g[r].len() && crate::grid::occupied(g, r, t.3);
        assert(t.3 < cols);
        assert forall|r: int, c: int|
            0 <= r < g.len() && 0 <= c < g[r].len() && g[r][c] != blank() implies t.0 <= r <= t.1
            && t.2 <= c <= t.3 by {
            assert(crate::grid::occupied(g, r, c));
        }
        lemma_letters_bound(g, t, cols);
        lemma_rows_in_bound(g.len() as int, t.0, t.1);
        let width = t.3 - t.2 + 1;
        let height = t.1 - t.0 + 1;
        assert(rows_in(g.len() as int, t.0, t.1) * width <= height * width) by (nonlinear_arith)
            requires
                0 <= rows_in(g.len() as int, t.0, t.1) <= height,
                width >= 0,
        ;
    }
}

/// Writing one cell moves the count from the old letter to the new one.
proof fn lemma_grid_count_update(g: Seq<Seq<char>>, r: int, c: int, l: char, ch: char)
    requires
        0 <= r < g.len(),
        0 <= c < g[r].len(),
    ensures
        grid_count(g.update(r, g[r].update(c, l)), ch) == grid_count(g, ch) - (if g[r][c] == ch {
            1int
        } else {
            0int
        }) + (if l == ch {
            1int
        } else {
            0int
        }),
    decreases g.len(),
{
    let g2 = g.update(r, g[r].update(c, l));
    crate::tiles::lemma_count_in_remove(g[r].update(c, l), c, ch);
    assert(g[r].update(c, l).remove(c) =~= g[r].remove(c));
    crate::tiles::lemma_count_in_remove(g[r], c, ch);
    if r < g.len() - 1 {
        lemma_grid_count_update(g.drop_last(), r, c, l, ch);
        assert(g2.drop_last() =~= g.drop_last().update(r, g[r].update(c, l)));
        assert(g2.last() == g.last());
        assert(g.drop_last()[r] == g[r]);
    } else {
        assert(g2.drop_last() =~= g.drop_last());
        assert(g2.last() == g[r].update(c, l));
    }
}

/// A board with no letters counts none.
proof fn lemma_grid_count_blank(g: Seq<Seq<char>>, ch: char)
    requires
        forall|r: int, c: int| 0 <= r < g.len() && 0 <= c < g[r].len() ==> g[r][c] == blank(),
        ch != blank(),
    ensures
        grid_count(g, ch) == 0,
    decreases g.len(),
{
    if g.len() > 0 {
        lemma_grid_count_blank(g.drop_last(), ch);
        lemma_count_in_zero(g.last(), ch);
        assert(!g.last().contains(ch)) by {
            if g.last().contains(ch) {
                let i = choose|i: int| 0 <= i < g.last().len() && g.last()[i] == ch;
                assert(g[g.len() - 1][i] == ch);
            }
        }
    }
}

/// An owned copy of a word.
fn clone_word(w: &Vec<char>) -> (r: Vec<char>)
    ensures
        r@ == w@,
{
    let mut r: Vec<char> = Vec::new();
    let mut i: usize = 0;
    while i < w.len()
        invariant
            i <= w@.len(),
            r@ == w@.take(i as int),
        decreases w@.len() - i,
    {
        r.push(w[i]);
        proof {
            assert(r@ =~= w@.take(i + 1));
        }
        i = i + 1;
    }
    proof {
        assert(w@.take(w@.len() as int) =~= w@);
    }
    r
}

/// An owned copy of a word list, word for word.
fn clone_words(ws: &Vec<Vec<char>>) -> (r: Vec<Vec<char>>)
    ensures
        r@.len() == ws@.len(),
        forall|i: int| 0 <= i < ws@.len() ==> (#[trigger] r@[i])@ == ws@[i]@,
        r.deep_view() == ws.deep_view(),
{
    let mut r: Vec<Vec<char>> = Vec::new();
    let mut i: usize = 0;
    while i < ws.len()
        invariant
            i <= ws@.len(),
            r@.len() == i,
            forall|j: int| 0 <= j < i ==> (#[trigger] r@[j])@ == ws@[j]@,
        decreases ws@.len() - i,
    {
        let w = clone_word(&ws[i]);
        r.push(w);
        i = i + 1;
    }
    proof {
        assert(r.deep_view() =~= ws.deep_view());
    }
    r
}

/// An owned copy of a placement batch.
fn clone_batch(b: &Vec<LetterPlacement>) -> (r: Vec<LetterPlacement>)
    ensures
        r@ == b@,
{
    let mut r: Vec<LetterPlacement> = Vec::new();
    let mut i: usize = 0;
    while i < b.len()
        invariant
            i <= b@.len(),
            r@ == b@.take(i as int),
        decreases b@.len() - i,
    {
        let pl = b[i];
        r.push(pl);
        proof {
            assert(r@ =~= b@.take(i + 1));
        }
        i = i + 1;
    }
    proof {
        assert(b@.take(b@.len() as int) =~= b@);
    }
    r
}

/// Take one tile with the given letter out of the pool.
fn remove_letter(tiles: &mut Vec<char>, letter: char)
    requires
        count_in(old(tiles)@, letter) >= 1,
    ensures
        final(tiles)@.len() == old(tiles)@.len() - 1,
        forall|ch: char|
            count_in(final(tiles)@, ch) == count_in(old(tiles)@, ch) - (if ch == letter {
                1int
            } else {
                0int
            }),
{
    proof {
        lemma_count_in_zero(tiles@, letter);
    }
    let mut i: usize = 0;
    while i < tiles.len()
        invariant
            i <= tiles@.len(),
            tiles@ == old(tiles)@,
            tiles@.contains(letter),
            forall|j: int| 0 <= j < i ==> tiles@[j] != letter,
        decreases tiles@.len() - i,
    {
        if tiles[i] == letter {
            let ghost pre = tiles@;
            tiles.remove(i);
            proof {
                assert forall|ch: char|
                    count_in(tiles@, ch) == count_in(pre, ch) - (if ch == letter {
                        1int
                    } else {
                        0int
                    }) by {
                    lemma_count_in_remove(pre, i as int, ch);
                }
            }
            return ;
        }
        i = i + 1;
    }
    proof {
        let w = choose|j: int| 0 <= j < tiles@.len() && tiles@[j] == letter;
        assert(false);
    }
}

/// Commit a batch of placements: write each letter to its blank cell and
/// take it out of the tile pool. The tile arithmetic balances exactly:
/// for every letter, what the board gains the pool loses.
pub fn apply_placements(board: &mut Grid, tiles: &mut Vec<char>, batch: &Vec<LetterPlacement>)
    requires
        old(board).wf(),
        batch_wf(batch@, old(board)@),
        can_spell(batch_letters(batch@), old(tiles)@),
    ensures
        final(board).wf(),
        final(board).spec_rows() == old(board).spec_rows(),
        final(board).spec_cols() == old(board).spec_cols(),
        final(tiles)@.len() == old(tiles)@.len() - batch@.len(),
        forall|ch: char|
            ch != blank() ==> grid_count(final(board)@, ch) + count_in(final(tiles)@, ch)
                == grid_count(old(board)@, ch) + count_in(old(tiles)@, ch),
        batch@.len() >= 1 ==> has_letter(final(board)@),
        final(board)@ == apply_batch_spec(old(board)@, batch@),
        total_cells(final(board)@) == total_cells(old(board)@),
        grid_count(final(board)@, blank()) + batch@.len() == grid_count(old(board)@, blank()),
{
    let ghost board0 = board@;
    let ghost tiles0 = tiles@;
    proof {
        assert(batch@.skip(0) =~= batch@);
        assert(batch@.take(0) =~= Seq::<LetterPlacement>::empty());
        assert(batch_letters(batch@.take(0)) =~= Seq::<char>::empty());
        assert(count_in(batch_letters(batch@.take(0)), ' ') == 0);
        assert(apply_batch_spec(board0, batch@.take(0)) == board0);
    }
    let mut i: usize = 0;
    while i < batch.len()
        invariant
            board.wf(),
            board.spec_rows() == old(board).spec_rows(),
            board.spec_cols() == old(board).spec_cols(),
            i <= batch@.len(),
            batch_wf(batch@, board0),
            tiles@.len() == tiles0.len() - i,
            // remaining placements still find their cells blank
            forall|j: int|
                i <= j < batch@.len() ==> board@[(#[trigger] batch@[j]).row as int][batch@[j].col as int]
                    == blank(),
            // cells outside the batch keep their dimensions
            forall|r: int| 0 <= r < board@.len() ==> (#[trigger] board@[r]).len() == board0[r].len(),
            board@.len() == board0.len(),
            // what the board gained, the pool lost
            forall|ch: char|
                ch != blank() ==> grid_count(board@, ch) == grid_count(board0, ch) + count_in(
                    batch_letters(batch@.take(i as int)),
                    ch,
                ),
            forall|ch: char|
                count_in(tiles@, ch) == count_in(tiles0, ch) - count_in(
                    batch_letters(batch@.take(i as int)),
                    ch,
                ),
            // the rest of the batch can still be supplied
            can_spell(batch_letters(batch@.skip(i as int)), tiles@),
            i >= 1 ==> board@[batch@[0].row as int][batch@[0].col as int] == batch@[0].letter,
            board@ == apply_batch_spec(board0, batch@.take(i as int)),
            total_cells(board@) == total_cells(board0),
            grid_count(board@, blank()) + i == grid_count(board0, blank()),
        decreases batch@.len() - i,
    {
        let pl = batch[i];
        let ghost gpre = board@;
        let ghost tpre = tiles@;
        board.place_letter(&pl);
        proof {
            assert forall|ch: char|
                ch != blank() implies grid_count(board@, ch) == grid_count(gpre, ch) + (if pl.letter
                == ch {
                1int
            } else {
                0int
            }) by {
                lemma_grid_count_update(gpre, pl.row as int, pl.col as int, pl.letter, ch);
            }
            lemma_grid_count_update(gpre, pl.row as int, pl.col as int, pl.letter, blank());
            lemma_total_cells_update(
                gpre,
                pl.row as int,
                gpre[pl.row as int].update(pl.col as int, pl.letter),
            );
            // the letter is available: it heads the remaining letters
            assert(batch_letters(batch@.skip(i as int))[0] == pl.letter);
            assert(batch_letters(batch@.skip(i as int)).len() >= 1);
            lemma_count_in_zero(batch_letters(batch@.skip(i as int)), pl.letter);
            assert(count_in(batch_letters(batch@.skip(i as int)), pl.letter) >= 1) by {
                assert(batch_letters(batch@.skip(i as int)).contains(pl.letter));
            }
            assert(count_in(tiles@, pl.letter) >= 1);
        }
        remove_letter(tiles, pl.letter);
        proof {
            // step the take/skip decompositions
            assert(batch@.take(i + 1) =~= batch@.take(i as int).push(pl));
            assert(board@ == apply_batch_spec(board0, batch@.take(i + 1))) by {
                let stepped = batch@.take(i as int).push(pl);
                assert(stepped.drop_last() =~= batch@.take(i as int));
                assert(stepped.last() == pl);
                assert(apply_batch_spec(board0, stepped) == apply_batch_spec(
                    board0,
                    stepped.drop_last(),
                ).update(
                    pl.row as int,
                    apply_batch_spec(board0, stepped.drop_last())[pl.row as int].update(
                        pl.col as int,
                        pl.letter,
                    ),
                ));
            }
            assert(batch_letters(batch@.take(i + 1)) =~= batch_letters(batch@.take(i as int)).push(
                pl.letter,
            ));
            assert(batch_letters(batch@.take(i + 1)).drop_last() =~= batch_letters(
                batch@.take(i as int),
            ));
            assert(batch_letters(batch@.skip(i as int)) =~= seq![pl.letter] + batch_letters(
                batch@.skip(i + 1),
            ));
            lemma_count_in_concat(seq![pl.letter], batch_letters(batch@.skip(i + 1)), pl.letter);
            assert forall|ch: char|
                count_in(batch_letters(batch@.skip(i as int)), ch) == count_in(
                    seq![pl.letter],
                    ch,
                ) + count_in(batch_letters(batch@.skip(i + 1)), ch) by {
                lemma_count_in_concat(seq![pl.letter], batch_letters(batch@.skip(i + 1)), ch);
            }
            assert forall|ch: char|
                count_in(seq![pl.letter], ch) == (if ch == pl.letter {
                    1int
                } else {
                    0int
                }) by {
                assert(seq![pl.letter].len() == 1);
                assert(seq![pl.letter].drop_last() =~= Seq::<char>::empty());
                assert(seq![pl.letter].last() == pl.letter);
                assert(count_in(seq![pl.letter].drop_last(), ch) == 0);
            }
            // untouched cells stay blank: the batch writes each cell once
            assert forall|j: int|
                i + 1 <= j < batch@.len() implies board@[(#[trigger] batch@[j]).row as int][
                batch@[j].col as int] == blank() by {
                assert(batch@[j].row != pl.row || batch@[j].col != pl.col);
            }
        }
        i = i + 1;
    }
    proof {
        assert(batch@.take(batch@.len() as int) =~= batch@);
        if batch@.len() >= 1 {
            assert(board@[batch@[0].row as int][batch@[0].col as int] == batch@[0].letter);
            assert(batch@[0].letter != blank());
            assert(crate::grid::occupied(board@, batch@[0].row as int, batch@[0].col as int));
        }
    }
}


/// The global search context: the best complete board found so far,
/// its area, and the canonical fingerprints already explored.
pub struct SolveState {
    pub minimum: Option<Grid>,
    pub minimum_area: usize,
    pub hashed_boards: HashSet<u128>,
}

/// Whatever board the tracker holds is well-formed, valid against the
/// dictionary, and has exactly the recorded area.
pub open spec fn state_ok(s: SolveState, dict: Seq<Seq<char>>) -> bool {
    match s.minimum {
        Option::None => true,
        Option::Some(g) => {
            &&& g.wf()
            &&& board_valid(g@, g.spec_cols() as int, dict)
            &&& connected_board(g@)
            &&& spec_area(g@) == s.minimum_area
        },
    }
}

/// How one search step may move the tracker: the best area never grows,
/// the best board changes only for a strictly smaller area, and the set
/// of seen fingerprints only grows.
pub open spec fn state_progress(pre: SolveState, post: SolveState) -> bool {
    &&& post.minimum_area <= pre.minimum_area
    &&& (post.minimum == pre.minimum || post.minimum_area < pre.minimum_area)
    &&& pre.hashed_boards@.subset_of(post.hashed_boards@)
}

/// Either the best board is untouched, or the new one is built from
/// exactly the letters the frame started with — board content plus the
/// whole remaining pool — on a canvas of the same size, each pool letter
/// covering one formerly blank cell.
pub open spec fn minimum_from(
    post: SolveState,
    pre: SolveState,
    g0: Seq<Seq<char>>,
    t0: Seq<char>,
) -> bool {
    ||| post.minimum == pre.minimum
    ||| (post.minimum matches Option::Some(g) && (forall|ch: char|
        ch != blank() ==> grid_count(g@, ch) == grid_count(g0, ch) + count_in(t0, ch))
        && total_cells(g@) == total_cells(g0) && grid_count(g@, blank()) + t0.len() == grid_count(
        g0,
        blank(),
    ))
}

/// A blank square board of twice the tile count per axis: the canvas
/// the search starts from.
pub open spec fn blank_grid(n: int) -> Seq<Seq<char>> {
    Seq::new((2 * n) as nat, |r: int| Seq::new((2 * n) as nat, |c: int| blank()))
}

/// The board holding one word alone, laid rightward from the anchor
/// cell (n, n) of the blank board for `n` tiles.
pub open spec fn word_board(w: Seq<char>, n: int) -> Seq<Seq<char>> {
    apply_batch_spec(blank_grid(n), word_row_batch(w, n, n))
}

/// The root frame is one word away from a solution: its first candidate
/// spends the whole pool, the one-word board is valid, fits below the
/// incumbent, and neither that board's fingerprint nor the blank
/// board's was seen before.
pub open spec fn first_word_solves(f: WordStackFrame, pre: SolveState) -> bool {
    &&& f.recursion_depth == 0
    &&& f.all_words@.len() >= 1
    &&& {
        let c0 = f.board.spec_rows() as int / 2;
        let r0 = f.board.spec_cols() as int / 2;
        let wb = apply_batch_spec(f.board@, word_row_batch(f.all_words@[0]@, c0, r0));
        &&& f.all_words@[0]@.len() == f.remaining_tiles@.len()
        &&& !pre.hashed_boards@.contains(spec_hash(f.board@) as u128)
        &&& !pre.hashed_boards@.contains(spec_hash(wb) as u128)
        &&& spec_hash(wb) != spec_hash(f.board@)
        &&& 1 <= spec_area(wb) < pre.minimum_area
        &&& board_valid(wb, f.board.spec_cols() as int, f.all_words.deep_view())
    }
}

/// The one-word board is well shaped: the word stands as the only run,
/// its bounding box is a single row of the word's length, and the board
/// passes the checker whenever the word is in the dictionary.
proof fn lemma_word_board_shape(w: Seq<char>, n: int, dict: Seq<Seq<char>>)
    requires
        1 <= w.len(),
        w.len() == n,
        2 * n <= usize::MAX,
        forall|j: int| 0 <= j < w.len() ==> w[j] != blank(),
        crate::check::in_dict(dict, w),
    ensures
        batch_wf(word_row_batch(w, n, n), blank_grid(n)),
        spec_area(word_board(w, n)) == n,
        board_valid(word_board(w, n), 2 * n, dict),
{
    let g0 = blank_grid(n);
    let batch = word_row_batch(w, n, n);
    let g = word_board(w, n);
    assert(g0.len() == 2 * n);
    assert(forall|r: int| 0 <= r < 2 * n ==> (#[trigger] g0[r]).len() == 2 * n);
    assert(forall|r: int, c: int| 0 <= r < 2 * n && 0 <= c < 2 * n ==> g0[r][c] == blank());
    assert(batch.len() == n);
    assert forall|i: int| 0 <= i < n implies #[trigger] batch[i] == crate::placements::row_cell_placement(
        w,
        n,
        n,
        i,
    ) by {}
    assert(batch_wf(batch, g0)) by {
        assert forall|i: int| 0 <= i < batch.len() implies {
            let pl = #[trigger] batch[i];
            &&& pl.row < g0.len()
            &&& pl.col < g0[pl.row as int].len()
            &&& g0[pl.row as int][pl.col as int] == blank()
            &&& pl.letter != blank()
        } by {
            assert(batch[i].row == n && batch[i].col == n + i && batch[i].letter == w[i]);
        }
        assert forall|i1: int, i2: int|
            #![trigger batch[i1], batch[i2]]
            0 <= i1 < i2 < batch.len() implies (batch[i1].row != batch[i2].row || batch[i1].col
            != batch[i2].col) by {
            assert(batch[i1].col == n + i1 && batch[i2].col == n + i2);
        }
    }
    crate::placements::lemma_apply_batch_cells(g0, batch);
    // exactly the word's cells hold letters: row n, columns n .. 2n
    assert forall|r: int, c: int|
        0 <= r < 2 * n && 0 <= c < 2 * n implies g[r][c] == (if r == n && n <= c < 2 * n {
        w[c - n]
    } else {
        blank()
    }) by {
        if r == n && n <= c < 2 * n {
            let i = c - n;
            assert(batch[i].row == n && batch[i].col == c && batch[i].letter == w[i]);
            assert(g[(batch[i]).row as int][batch[i].col as int] == batch[i].letter);
        } else {
            assert(!crate::placements::in_batch(batch, r, c)) by {
                if crate::placements::in_batch(batch, r, c) {
                    let i = choose|i: int|
                        0 <= i < batch.len() && (#[trigger] batch[i]).row == r && batch[i].col == c;
                    assert(batch[i].row == n && batch[i].col == n + i);
                }
            }
        }
    }
    assert(g.len() == 2 * n && forall|r: int| 0 <= r < 2 * n ==> (#[trigger] g[r]).len() == 2 * n);
    // the bounding box is the single occupied row segment
    let t = (n, n, n, 2 * n - 1);
    assert(crate::grid::is_bbox_at(g, t)) by {
        assert(crate::grid::occupied(g, n, n));
        assert(crate::grid::occupied(g, n, 2 * n - 1));
        assert forall|r: int, c: int|
            0 <= r < g.len() && 0 <= c < g[r].len() && crate::grid::occupied(g, r, c) implies t.0
            <= r <= t.1 && t.2 <= c <= t.3 by {}
    }
    assert(has_letter(g)) by {
        assert(crate::grid::occupied(g, n, n));
    }
    assert(crate::grid::is_bbox_at(g, crate::grid::bbox_of(g)));
    crate::grid::lemma_bbox_unique(g, t, crate::grid::bbox_of(g));
    assert(spec_area(g) == 1 * (2 * n - 1 - n + 1));
    // every row but row n is blank; row n holds the word as its one run
    assert forall|r: int| 0 <= r < g.len() implies crate::check::line_valid(
        #[trigger] g[r],
        dict,
    ) by {
        if r != n {
            assert forall|c: int| 0 <= c < g[r].len() implies g[r][c] == blank() by {}
            crate::check::lemma_blank_line_valid(g[r], dict);
        } else {
            let line = g[n];
            assert forall|a: int, b: int|
                #[trigger] crate::check::run_at(line, a, b) && b - a >= 2 implies
                crate::check::in_dict(dict, line.subrange(a, b)) by {
                // the only run is the word's own span
                assert(line[a] != blank());
                assert(n <= a) by {
                    if a < n {
                        assert(line[a] == blank());
                    }
                }
                assert(a == n) by {
                    if a > n {
                        assert(line[a - 1] != blank());
                    }
                }
                assert(b == 2 * n) by {
                    if b < 2 * n {
                        assert(line[b] != blank());
                    }
                }
                assert(line.subrange(a, b) =~= w);
            }
        }
    }
    assert forall|c: int| 0 <= c < 2 * n implies crate::check::line_valid(
        #[trigger] crate::grid::col_of(g, c),
        dict,
    ) by {
        let col = crate::grid::col_of(g, c);
        if c < n {
            assert forall|i: int| 0 <= i < col.len() implies col[i] == blank() by {
                assert(col[i] == g[i][c]);
            }
            crate::check::lemma_blank_line_valid(col, dict);
        } else {
            // one letter in the column: no run reaches length two
            assert forall|a: int, b: int|
                #[trigger] crate::check::run_at(col, a, b) && b - a >= 2 implies
                crate::check::in_dict(dict, col.subrange(a, b)) by {
                assert(col[a] == g[a][c] && col[a + 1] == g[a + 1][c]);
                assert(col[a] != blank() && col[a + 1] != blank());
                assert(a == n && a + 1 == n);
            }
        }
    }
}

/// A usable word list: nonempty words of bounded length, blank-free.
pub open spec fn good_words(ws: Seq<Vec<char>>, limit: int) -> bool {
    forall|i: int|
        0 <= i < ws.len() ==> {
            &&& 1 <= (#[trigger] ws[i])@.len() <= limit
            &&& (forall|j: int| 0 <= j < ws[i]@.len() ==> ws[i]@[j] != blank())
        }
}

/// Per-line candidate word lists, refined as the board grows. A line
/// without an entry falls back to the full dictionary.
pub struct WordCache {
    pub rows: Vec<Option<Vec<Vec<char>>>>,
    pub cols: Vec<Option<Vec<Vec<char>>>>,
}

pub open spec fn cache_ok(cache: WordCache, rows: int, cols: int, limit: int) -> bool {
    &&& cache.rows@.len() == rows
    &&& cache.cols@.len() == cols
    &&& (forall|i: int|
        0 <= i < rows ==> match #[trigger] cache.rows@[i] {
            Option::Some(ws) => good_words(ws@, limit),
            Option::None => true,
        })
    &&& (forall|i: int|
        0 <= i < cols ==> match #[trigger] cache.cols@[i] {
            Option::Some(ws) => good_words(ws@, limit),
            Option::None => true,
        })
}

/// One unit of recursion: the board as it stood in the parent, the
/// letters the parent chose to add, and the word lists to draw from.
pub struct WordStackFrame {
    pub board: Grid,
    pub remaining_tiles: Vec<char>,
    pub available_words: WordCache,
    pub all_words: Vec<Vec<char>>,
    pub placed_letters: Vec<LetterPlacement>,
    pub recursion_depth: usize,
}

/// What every frame handed to the search satisfies.
pub open spec fn frame_wf(f: WordStackFrame) -> bool {
    let cols = f.board.spec_cols() as int;
    &&& f.board.wf()
    &&& f.board.spec_rows() == f.board.spec_cols()
    &&& good_words(f.all_words@, cols / 2)
    &&& cache_ok(f.available_words, cols, cols, cols / 2)
    &&& batch_wf(f.placed_letters@, f.board@)
    &&& can_spell(batch_letters(f.placed_letters@), f.remaining_tiles@)
    &&& connected_board(apply_batch_spec(f.board@, f.placed_letters@))
    &&& (f.recursion_depth == 0 ==> {
        &&& f.placed_letters@.len() == 0
        &&& (forall|r: int, c: int|
            0 <= r < f.board@.len() && 0 <= c < f.board@[r].len() ==> f.board@[r][c] == blank())
        &&& (forall|i: int|
            0 <= i < f.all_words@.len() ==> can_spell(
                (#[trigger] f.all_words@[i])@,
                f.remaining_tiles@,
            ))
        &&& f.remaining_tiles@.len() + 2 <= usize::MAX
    })
    &&& (f.recursion_depth > 0 ==> {
        &&& f.placed_letters@.len() >= 1
        &&& f.recursion_depth + f.remaining_tiles@.len() + 1 <= usize::MAX
    })
}

/// The letters a batch would write, as a pool to test against the tiles.
fn letters_of(batch: &Vec<LetterPlacement>) -> (r: Vec<char>)
    ensures
        r@ == batch_letters(batch@),
{
    let mut r: Vec<char> = Vec::new();
    let mut i: usize = 0;
    while i < batch.len()
        invariant
            i <= batch@.len(),
            r@ == batch_letters(batch@.take(i as int)),
        decreases batch@.len() - i,
    {
        let pl = batch[i];
        r.push(pl.letter);
        proof {
            assert(batch@.take(i + 1) =~= batch@.take(i as int).push(pl));
            assert(r@ =~= batch_letters(batch@.take(i + 1)));
        }
        i = i + 1;
    }
    proof {
        assert(batch@.take(batch@.len() as int) =~= batch@);
    }
    r
}

/// An owned copy of one cache side.
fn clone_cache_side(entries: &Vec<Option<Vec<Vec<char>>>>, Ghost(limit): Ghost<int>) -> (out: Vec<
    Option<Vec<Vec<char>>>,
>)
    requires
        forall|i: int|
            0 <= i < entries@.len() ==> match #[trigger] entries@[i] {
                Option::Some(ws) => good_words(ws@, limit),
                Option::None => true,
            },
    ensures
        out@.len() == entries@.len(),
        forall|i: int|
            0 <= i < out@.len() ==> match #[trigger] out@[i] {
                Option::Some(ws) => good_words(ws@, limit),
                Option::None => true,
            },
{
    let mut out: Vec<Option<Vec<Vec<char>>>> = Vec::new();
    let mut i: usize = 0;
    while i < entries.len()
        invariant
            i <= entries@.len(),
            out@.len() == i,
            forall|j: int|
                0 <= j < entries@.len() ==> match #[trigger] entries@[j] {
                    Option::Some(ws) => good_words(ws@, limit),
                    Option::None => true,
                },
            forall|j: int|
                0 <= j < i ==> match #[trigger] out@[j] {
                    Option::Some(ws) => good_words(ws@, limit),
                    Option::None => true,
                },
        decreases entries@.len() - i,
    {
        match &entries[i] {
            Option::Some(ws) => {
                let copied = clone_words(ws);
                proof {
                    assert(good_words(copied@, limit)) by {
                        assert(entries@[i as int] matches Option::Some(orig) ==> good_words(
                            orig@,
                            limit,
                        ));
                    }
                }
                out.push(Some(copied));
            },
            Option::None => {
                out.push(None);
            },
        }
        i = i + 1;
    }
    out
}

/// An owned copy of the whole cache.
fn clone_cache(cache: &WordCache, Ghost(rows): Ghost<int>, Ghost(cols): Ghost<int>, Ghost(limit): Ghost<int>) -> (out: WordCache)
    requires
        cache_ok(*cache, rows, cols, limit),
    ensures
        cache_ok(out, rows, cols, limit),
{
    WordCache {
        rows: clone_cache_side(&cache.rows, Ghost(limit)),
        cols: clone_cache_side(&cache.cols, Ghost(limit)),
    }
}

/// The candidate list for a line: its cache entry, or the dictionary.
fn cache_entry(
    entries: &Vec<Option<Vec<Vec<char>>>>,
    idx: usize,
    fallback: &Vec<Vec<char>>,
    Ghost(limit): Ghost<int>,
) -> (out: Vec<Vec<char>>)
    requires
        idx < entries@.len(),
        match entries@[idx as int] {
            Option::Some(ws) => good_words(ws@, limit),
            Option::None => true,
        },
        good_words(fallback@, limit),
    ensures
        good_words(out@, limit),
{
    match &entries[idx] {
        Option::Some(ws) => clone_words(ws),
        Option::None => clone_words(fallback),
    }
}

/// Keep the candidates that still fit this line with these tiles.
fn filter_fits(
    board: &Grid,
    src: &Vec<Vec<char>>,
    position: usize,
    dir: Direction,
    tiles: &Vec<char>,
    Ghost(limit): Ghost<int>,
) -> (out: Vec<Vec<char>>)
    requires
        board.wf(),
        good_words(src@, limit),
        dir == Direction::Horizontal ==> position < board.spec_rows(),
        dir == Direction::Vertical ==> position < board.spec_cols(),
        board.spec_rows() + board.spec_cols() + 2 * limit <= usize::MAX,
        0 <= limit,
    ensures
        good_words(out@, limit),
{
    let mut out: Vec<Vec<char>> = Vec::new();
    let mut i: usize = 0;
    while i < src.len()
        invariant
            i <= src@.len(),
            board.wf(),
            good_words(src@, limit),
            good_words(out@, limit),
            dir == Direction::Horizontal ==> position < board.spec_rows(),
            dir == Direction::Vertical ==> position < board.spec_cols(),
            board.spec_rows() + board.spec_cols() + 2 * limit <= usize::MAX,
        decreases src@.len() - i,
    {
        let w = &src[i];
        if board.fits_in_row(w.as_slice(), position, dir, tiles.as_slice()) {
            let copied = clone_word(w);
            let ghost pre = out@;
            out.push(copied);
            proof {
                assert forall|j: int| 0 <= j < out@.len() implies {
                    &&& 1 <= (#[trigger] out@[j])@.len() <= limit
                    &&& (forall|t: int| 0 <= t < out@[j]@.len() ==> out@[j]@[t] != blank())
                } by {
                    if j < pre.len() {
                        assert(out@[j] == pre[j]);
                        assert(1 <= (pre[j])@.len() <= limit);
                    } else {
                        assert(out@[j]@ == src@[i as int]@);
                    }
                }
            }
        }
        i = i + 1;
    }
    out
}


/// One search step: commit this frame's placements, prune by canonical
/// fingerprint, by area against the incumbent, and (optionally) by eager
/// validity; record a strictly better complete valid board; otherwise
/// recurse over every accepted placement along every occupied line.
///
/// Soundness of the tracker is carried through every step: whatever
/// board it reports is valid, connected, has the recorded (monotonically
/// shrinking) area, and spends exactly the frame's letters. Success is
/// owed where the step itself decides it: a frame whose placements spend
/// the last tiles on an unseen, valid, improving board must record it,
/// and a root frame whose first candidate does so in one word must end
/// holding a solution.
pub fn find_minimum_area_configuration(frame: WordStackFrame, eager: bool, state: &mut SolveState)
    requires
        frame_wf(frame),
        state_ok(*old(state), frame.all_words.deep_view()),
    ensures
        state_ok(*final(state), frame.all_words.deep_view()),
        state_progress(*old(state), *final(state)),
        minimum_from(*final(state), *old(state), frame.board@, frame.remaining_tiles@),
        // a frame whose canonical fingerprint was already seen is DEAD:
        // it changes nothing
        old(state).hashed_boards@.contains(
            spec_hash(apply_batch_spec(frame.board@, frame.placed_letters@)) as u128,
        ) ==> *final(state) == *old(state),
        // with no words to place and tiles still in the pool, nothing is
        // ever recorded
        frame.recursion_depth == 0 && frame.remaining_tiles@.len() > 0 && frame.all_words@.len()
            == 0 ==> final(state).minimum == old(state).minimum && final(state).minimum_area == old(
            state,
        ).minimum_area,
        // a best board, once held, is never given up
        old(state).minimum is Some ==> final(state).minimum is Some,
        // a root frame one word away from a solution ends with one held
        first_word_solves(frame, *old(state)) ==> final(state).minimum is Some,
        // the SOLVED transition is owed: a frame that spends the last
        // tiles on an unseen, valid board below the incumbent area
        // records a solution
        (frame.recursion_depth > 0 && frame.placed_letters@.len()
            == frame.remaining_tiles@.len() && !old(state).hashed_boards@.contains(
            spec_hash(apply_batch_spec(frame.board@, frame.placed_letters@)) as u128,
        ) && spec_area(apply_batch_spec(frame.board@, frame.placed_letters@)) < old(
            state,
        ).minimum_area && board_valid(
            apply_batch_spec(frame.board@, frame.placed_letters@),
            frame.board.spec_cols() as int,
            frame.all_words.deep_view(),
        )) ==> final(state).minimum is Some,
    decreases frame.remaining_tiles@.len() + (if frame.recursion_depth == 0 {
        1int
    } else {
        0int
    }), 1int,
{
    let ghost dict = frame.all_words.deep_view();
    let ghost board0 = frame.board@;
    let ghost tiles0 = frame.remaining_tiles@;
    let WordStackFrame {
        board,
        remaining_tiles,
        available_words,
        all_words,
        placed_letters,
        recursion_depth,
    } = frame;
    let mut board = board;
    let mut tiles = remaining_tiles;
    let mut cache = available_words;
    if recursion_depth > 0 {
        apply_placements(&mut board, &mut tiles, &placed_letters);
    } else {
        proof {
            assert(batch_letters(placed_letters@) =~= Seq::<char>::empty());
            assert(placed_letters@ =~= Seq::<LetterPlacement>::empty());
            assert(apply_batch_spec(board0, placed_letters@) == board0);
        }
    }
    proof {
        assert(board@ == apply_batch_spec(board0, placed_letters@));
        assert(connected_board(board@));
    }
    // from here on: what the board holds plus what the pool holds is
    // exactly what the frame was given
    proof {
        assert forall|ch: char|
            ch != blank() implies grid_count(board@, ch) + count_in(tiles@, ch) == grid_count(
            board0,
            ch,
        ) + count_in(tiles0, ch) by {}
    }
    proof {
        if recursion_depth == 0 {
            // the root board is blank: area zero, valid against anything
            assert(!has_letter(board@)) by {
                if has_letter(board@) {
                    let (wr, wc) = choose|r: int, c: int|
                        0 <= r < board@.len() && 0 <= c < board@[r].len() && crate::grid::occupied(
                            board@,
                            r,
                            c,
                        );
                    assert(board@[wr][wc] == blank());
                }
            }
            crate::check::lemma_blank_board_valid(
                board@,
                board.spec_cols() as int,
                all_words.deep_view(),
            );
        }
    }
    let boardhash = board.hash();
    proof {
        assert(boardhash == spec_hash(apply_batch_spec(board0, placed_letters@)) as u128);
        if first_word_solves(frame, *old(state)) {
            assert(all_words@[0]@.len() >= 1) by {
                assert(frame.all_words@[0]@.len() >= 1);
            }
        }
    }
    if state.hashed_boards.contains(&boardhash) {
        return ;
    }
    state.hashed_boards.insert(boardhash);
    let area = board.bounding_box_area();
    if area >= state.minimum_area {
        return ;
    }
    if eager && !board.valid_bananagrams(&all_words) {
        return ;
    }
    if tiles.len() == 0 {
        if board.valid_bananagrams(&all_words) && (state.minimum.is_none() || area
            < state.minimum_area) {
            let solution = board.duplicate();
            state.minimum = Some(solution);
            state.minimum_area = area;
            proof {
                assert forall|ch: char|
                    ch != blank() implies grid_count(board@, ch) == grid_count(board0, ch)
                    + count_in(tiles0, ch) by {
                    assert(count_in(tiles@, ch) == 0) by {
                        assert(tiles@ =~= Seq::<char>::empty());
                    }
                }
            }
        }
        return ;
    }
    if recursion_depth == 0 {
        let mid = board.midpoint();
        let ghost s1 = *state;
        let mut wi: usize = 0;
        while wi < all_words.len()
            invariant
                wi == 0 ==> *state == s1,
                s1.hashed_boards@ == old(state).hashed_boards@.insert(
                    spec_hash(board0) as u128,
                ),
                s1.minimum_area == old(state).minimum_area,
                s1.minimum == old(state).minimum,
                all_words@ == frame.all_words@,
                board0 == frame.board@,
                board.spec_rows() == frame.board.spec_rows(),
                board.spec_cols() == frame.board.spec_cols(),
                first_word_solves(frame, *old(state)) && wi >= 1 ==> state.minimum is Some,
                board.wf(),
                board.spec_rows() == board.spec_cols(),
                board@ == board0,
                tiles@ == tiles0,
                tiles0.len() + 2 <= usize::MAX,
                mid.0 == board.spec_rows() / 2,
                mid.1 == board.spec_cols() / 2,
                good_words(all_words@, board.spec_cols() as int / 2),
                cache_ok(
                    cache,
                    board.spec_cols() as int,
                    board.spec_cols() as int,
                    board.spec_cols() as int / 2,
                ),
                forall|r: int, c: int|
                    0 <= r < board@.len() && 0 <= c < board@[r].len() ==> board@[r][c] == blank(),
                connected_board(board@),
                forall|i: int|
                    0 <= i < all_words@.len() ==> can_spell(
                        (#[trigger] all_words@[i])@,
                        tiles0,
                    ),
                wi <= all_words@.len(),
                tiles0 == frame.remaining_tiles@,
                frame.recursion_depth == 0,
                all_words@.len() == 0 ==> state.minimum == old(state).minimum
                    && state.minimum_area == old(state).minimum_area,
                dict == all_words.deep_view(),
                state_ok(*state, dict),
                state_progress(*old(state), *state),
                minimum_from(*state, *old(state), board0, tiles0),
                old(state).minimum is Some ==> state.minimum is Some,
            decreases all_words@.len() - wi,
        {
            let word = &all_words[wi];
            let placement = place_word_at(word.as_slice(), mid.0, mid.1, Direction::Horizontal);
            proof {
                assert(batch_wf(placement@, board@)) by {
                    assert(board.spec_cols() / 2 + word@.len() <= board.spec_cols());
                    assert forall|i1: int, i2: int|
                        #![trigger placement@[i1], placement@[i2]]
                        0 <= i1 < i2 < placement@.len() implies (placement@[i1].row
                        != placement@[i2].row || placement@[i1].col != placement@[i2].col) by {
                        assert(placement@[i1].col == mid.0 + i1);
                        assert(placement@[i2].col == mid.0 + i2);
                    }
                    assert forall|i: int| 0 <= i < placement@.len() implies {
                        let pl = #[trigger] placement@[i];
                        &&& pl.row < board@.len()
                        &&& pl.col < board@[pl.row as int].len()
                        &&& board@[pl.row as int][pl.col as int] == blank()
                        &&& pl.letter != blank()
                    } by {
                        assert(placement@[i].letter == word@[i]);
                        assert(word@[i] != blank());
                    }
                }
                assert(can_spell(batch_letters(placement@), tiles@)) by {
                    assert(batch_letters(placement@) =~= word@);
                    assert(can_spell(word@, tiles0));
                }
                lemma_first_word_connected(board@, placement@, mid.1 as int, mid.0 as int);
                assert(1 <= word@.len() <= board.spec_cols() as int / 2) by {
                    assert(all_words@[wi as int] == *word);
                }
                assert(mid.0 + word@.len() <= board.spec_cols());
                assert forall|i: int| 0 <= i < placement@.len() implies #[trigger] placement@[i]
                    == word_row_batch(word@, mid.0 as int, mid.1 as int)[i] by {
                    assert(placement@[i].letter == word@[i]);
                    assert(placement@[i].row == mid.1 && placement@[i].col == mid.0 + i);
                }
                assert(placement@ =~= word_row_batch(word@, mid.0 as int, mid.1 as int));
            }
            let child = WordStackFrame {
                board: board.duplicate(),
                remaining_tiles: clone_word(&tiles),
                available_words: clone_cache(
                    &cache,
                    Ghost(board.spec_cols() as int),
                    Ghost(board.spec_cols() as int),
                    Ghost(board.spec_cols() as int / 2),
                ),
                all_words: clone_words(&all_words),
                placed_letters: placement,
                recursion_depth: 1,
            };
            proof {
                assert(frame_wf(child));
                assert(child.all_words.deep_view() =~= dict);
            }
            proof {
                if wi == 0 && first_word_solves(frame, *old(state)) {
                    // the first candidate's board is the hypothesized
                    // one-word board, and the child frame meets every
                    // condition of the SOLVED transition
                    let wb = apply_batch_spec(
                        frame.board@,
                        word_row_batch(
                            frame.all_words@[0]@,
                            frame.board.spec_rows() as int / 2,
                            frame.board.spec_cols() as int / 2,
                        ),
                    );
                    assert(apply_batch_spec(child.board@, child.placed_letters@) == wb);
                    assert(0 <= spec_hash(wb) < 0x1_0000_0000_0000_0000_0000_0000_0000_0000);
                    assert(0 <= spec_hash(board0) < 0x1_0000_0000_0000_0000_0000_0000_0000_0000);
                    assert(spec_hash(wb) as u128 != spec_hash(board0) as u128);
                    assert(!state.hashed_boards@.contains(spec_hash(wb) as u128));
                    assert(child.placed_letters@.len() == child.remaining_tiles@.len());
                    assert(spec_area(wb) < state.minimum_area);
                    assert(board_valid(
                        wb,
                        child.board.spec_cols() as int,
                        child.all_words.deep_view(),
                    ));
                }
            }
            let ghost pre = *state;
            find_minimum_area_configuration(child, eager, state);
            proof {
                assert(minimum_from(*state, pre, board0, tiles0)) by {
                    if state.minimum != pre.minimum {
                        assert(minimum_from(*state, pre, child.board@, child.remaining_tiles@));
                    }
                }
                if wi == 0 && first_word_solves(frame, *old(state)) {
                    assert(state.minimum is Some);
                }
            }
            wi = wi + 1;
        }
        proof {
            if first_word_solves(frame, *old(state)) {
                assert(wi >= 1);
            }
        }
        return ;
    }
    let bb = match board.bounding_box() {
        Some(bb) => bb,
        None => {
            return ;
        },
    };
    proof {
        lemma_dims_small(board.spec_cols() as int);
    }
    let ghost cols = board.spec_cols() as int;
    let ghost limit = board.spec_cols() as int / 2;
    // refine the cached candidate lists for every occupied line
    let mut row: usize = bb.min_row;
    while row <= bb.max_row
        invariant
            board.wf(),
            board.spec_rows() == board.spec_cols(),
            cols == board.spec_cols() as int,
            limit == cols / 2,
            3 * cols <= usize::MAX,
            bb.min_row <= row <= bb.max_row + 1,
            bb.max_row < board.spec_rows(),
            good_words(all_words@, limit),
            cache_ok(cache, cols, cols, limit),
        decreases bb.max_row + 1 - row,
    {
        let src = cache_entry(&cache.rows, row, &all_words, Ghost(limit));
        let filtered = filter_fits(&board, &src, row, Direction::Horizontal, &tiles, Ghost(limit));
        cache.rows.set(row, Some(filtered));
        row = row + 1;
    }
    let mut col: usize = bb.min_col;
    while col <= bb.max_col
        invariant
            board.wf(),
            board.spec_rows() == board.spec_cols(),
            cols == board.spec_cols() as int,
            limit == cols / 2,
            3 * cols <= usize::MAX,
            bb.min_col <= col <= bb.max_col + 1,
            bb.max_col < board.spec_cols(),
            good_words(all_words@, limit),
            cache_ok(cache, cols, cols, limit),
        decreases bb.max_col + 1 - col,
    {
        let src = cache_entry(&cache.cols, col, &all_words, Ghost(limit));
        let filtered = filter_fits(&board, &src, col, Direction::Vertical, &tiles, Ghost(limit));
        cache.cols.set(col, Some(filtered));
        col = col + 1;
    }
    // recurse over every accepted placement along every occupied line
    let mut row: usize = bb.min_row;
    while row <= bb.max_row
        invariant
            board.wf(),
            board.spec_rows() == board.spec_cols(),
            cols == board.spec_cols() as int,
            limit == cols / 2,
            3 * cols <= usize::MAX,
            bb.min_row <= row <= bb.max_row + 1,
            bb.max_row < board.spec_rows(),
            good_words(all_words@, limit),
            cache_ok(cache, cols, cols, limit),
            dict == all_words.deep_view(),
            recursion_depth >= 1,
            recursion_depth + tiles@.len() + 2 <= usize::MAX,
            tiles@.len() < tiles0.len(),
            connected_board(board@),
            total_cells(board@) == total_cells(board0),
            grid_count(board@, blank()) + tiles0.len() == grid_count(board0, blank()) + tiles@.len(),
            tiles0 == frame.remaining_tiles@,
            frame.recursion_depth >= 1,
            forall|ch: char|
                ch != blank() ==> grid_count(board@, ch) + count_in(tiles@, ch) == grid_count(
                    board0,
                    ch,
                ) + count_in(tiles0, ch),
            state_ok(*state, dict),
            state_progress(*old(state), *state),
            minimum_from(*state, *old(state), board0, tiles0),
            old(state).minimum is Some ==> state.minimum is Some,
        decreases bb.max_row + 1 - row,
    {
        try_line(
            &board, &tiles, &cache, &all_words, row, Direction::Horizontal, recursion_depth, eager,
            state, Ghost(board0), Ghost(tiles0),
        );
        row = row + 1;
    }
    let mut col: usize = bb.min_col;
    while col <= bb.max_col
        invariant
            board.wf(),
            board.spec_rows() == board.spec_cols(),
            cols == board.spec_cols() as int,
            limit == cols / 2,
            3 * cols <= usize::MAX,
            bb.min_col <= col <= bb.max_col + 1,
            bb.max_col < board.spec_cols(),
            good_words(all_words@, limit),
            cache_ok(cache, cols, cols, limit),
            dict == all_words.deep_view(),
            recursion_depth >= 1,
            recursion_depth + tiles@.len() + 2 <= usize::MAX,
            tiles@.len() < tiles0.len(),
            connected_board(board@),
            total_cells(board@) == total_cells(board0),
            grid_count(board@, blank()) + tiles0.len() == grid_count(board0, blank()) + tiles@.len(),
            tiles0 == frame.remaining_tiles@,
            frame.recursion_depth >= 1,
            forall|ch: char|
                ch != blank() ==> grid_count(board@, ch) + count_in(tiles@, ch) == grid_count(
                    board0,
                    ch,
                ) + count_in(tiles0, ch),
            state_ok(*state, dict),
            state_progress(*old(state), *state),
            minimum_from(*state, *old(state), board0, tiles0),
            old(state).minimum is Some ==> state.minimum is Some,
        decreases bb.max_col + 1 - col,
    {
        try_line(
            &board, &tiles, &cache, &all_words, col, Direction::Vertical, recursion_depth, eager,
            state, Ghost(board0), Ghost(tiles0),
        );
        col = col + 1;
    }
}

/// Boards sized by `wf` leave ample room in machine arithmetic.
proof fn lemma_dims_small(cols: int)
    requires
        0 <= cols,
        cols * cols <= isize::MAX,
    ensures
        3 * cols <= usize::MAX,
{
    if cols >= 3 {
        assert(3 * cols <= cols * cols) by (nonlinear_arith)
            requires
                cols >= 3,
        ;
    }
}

/// Try every accepted placement of every candidate word on one line,
/// recursing on each. The tracker only ever improves.
fn try_line(
    board: &Grid,
    tiles: &Vec<char>,
    cache: &WordCache,
    all_words: &Vec<Vec<char>>,
    position: usize,
    dir: Direction,
    depth: usize,
    eager: bool,
    state: &mut SolveState,
    Ghost(board0): Ghost<Seq<Seq<char>>>,
    Ghost(tiles0): Ghost<Seq<char>>,
)
    requires
        board.wf(),
        board.spec_rows() == board.spec_cols(),
        3 * board.spec_cols() as int <= usize::MAX,
        dir == Direction::Horizontal ==> position < board.spec_rows(),
        dir == Direction::Vertical ==> position < board.spec_cols(),
        good_words(all_words@, board.spec_cols() as int / 2),
        cache_ok(
            *cache,
            board.spec_cols() as int,
            board.spec_cols() as int,
            board.spec_cols() as int / 2,
        ),
        depth >= 1,
        depth + tiles@.len() + 2 <= usize::MAX,
        tiles@.len() < tiles0.len(),
        connected_board(board@),
        total_cells(board@) == total_cells(board0),
        grid_count(board@, blank()) + tiles0.len() == grid_count(board0, blank()) + tiles@.len(),
        forall|ch: char|
            ch != blank() ==> grid_count(board@, ch) + count_in(tiles@, ch) == grid_count(
                board0,
                ch,
            ) + count_in(tiles0, ch),
        state_ok(*old(state), all_words.deep_view()),
    ensures
        state_ok(*final(state), all_words.deep_view()),
        state_progress(*old(state), *final(state)),
        minimum_from(*final(state), *old(state), board0, tiles0),
        old(state).minimum is Some ==> final(state).minimum is Some,
    decreases tiles0.len(), 0int,
{
    let ghost dict = all_words.deep_view();
    let ghost limit = board.spec_cols() as int / 2;
    let words_here = match dir {
        Direction::Horizontal => cache_entry(&cache.rows, position, all_words, Ghost(limit)),
        Direction::Vertical => cache_entry(&cache.cols, position, all_words, Ghost(limit)),
    };
    let mut wi: usize = 0;
    while wi < words_here.len()
        invariant
            board.wf(),
            board.spec_rows() == board.spec_cols(),
            3 * board.spec_cols() as int <= usize::MAX,
            dir == Direction::Horizontal ==> position < board.spec_rows(),
            dir == Direction::Vertical ==> position < board.spec_cols(),
            good_words(words_here@, limit),
            good_words(all_words@, limit),
            limit == board.spec_cols() as int / 2,
            cache_ok(*cache, board.spec_cols() as int, board.spec_cols() as int, limit),
            depth >= 1,
            depth + tiles@.len() + 2 <= usize::MAX,
            tiles@.len() < tiles0.len(),
            connected_board(board@),
            total_cells(board@) == total_cells(board0),
            grid_count(board@, blank()) + tiles0.len() == grid_count(board0, blank()) + tiles@.len(),
            forall|ch: char|
                ch != blank() ==> grid_count(board@, ch) + count_in(tiles@, ch) == grid_count(
                    board0,
                    ch,
                ) + count_in(tiles0, ch),
            wi <= words_here@.len(),
            dict == all_words.deep_view(),
            state_ok(*state, dict),
            state_progress(*old(state), *state),
            minimum_from(*state, *old(state), board0, tiles0),
            old(state).minimum is Some ==> state.minimum is Some,
        decreases words_here@.len() - wi,
    {
        let word = &words_here[wi];
        let placements = board.word_placements_for(word.as_slice(), position, dir);
        proof {
            let gline = crate::grid::line_of(board@, position as int, dir);
            assert forall|i: int| 0 <= i < placements@.len() implies (#[trigger] placements@[i])@.len()
                >= 1 by {
                assert(batch_is_sound(placements@[i]@, gline, word@, position as int, dir));
                let k = choose|k: int|
                    #[trigger] placement_ok(gline, word@, k) && placements@[i]@ == batch_for(
                        gline,
                        word@,
                        k,
                        position as int,
                        dir,
                    );
                lemma_batch_prefix_props(gline, word@, k, position as int, dir, word@.len() as int);
            }
        }
        let mut pi: usize = 0;
        while pi < placements.len()
            invariant
                board.wf(),
                board.spec_rows() == board.spec_cols(),
                3 * board.spec_cols() as int <= usize::MAX,
                good_words(all_words@, limit),
                limit == board.spec_cols() as int / 2,
                cache_ok(*cache, board.spec_cols() as int, board.spec_cols() as int, limit),
                depth >= 1,
                depth + tiles@.len() + 2 <= usize::MAX,
                tiles@.len() < tiles0.len(),
                connected_board(board@),
                total_cells(board@) == total_cells(board0),
                grid_count(board@, blank()) + tiles0.len() == grid_count(board0, blank())
                    + tiles@.len(),
                forall|ch: char|
                    ch != blank() ==> grid_count(board@, ch) + count_in(tiles@, ch) == grid_count(
                        board0,
                        ch,
                    ) + count_in(tiles0, ch),
                pi <= placements@.len(),
                dir == Direction::Horizontal ==> position < board.spec_rows(),
                dir == Direction::Vertical ==> position < board.spec_cols(),
                word@.len() >= 1,
                forall|j: int| 0 <= j < word@.len() ==> word@[j] != blank(),
                forall|i: int|
                    0 <= i < placements@.len() ==> batch_wf((#[trigger] placements@[i])@, board@),
                forall|i: int|
                    0 <= i < placements@.len() ==> (#[trigger] placements@[i])@.len() >= 1,
                forall|i: int|
                    0 <= i < placements@.len() ==> batch_is_sound(
                        (#[trigger] placements@[i])@,
                        crate::grid::line_of(board@, position as int, dir),
                        word@,
                        position as int,
                        dir,
                    ),
                dict == all_words.deep_view(),
                state_ok(*state, dict),
                state_progress(*old(state), *state),
                minimum_from(*state, *old(state), board0, tiles0),
                old(state).minimum is Some ==> state.minimum is Some,
            decreases placements@.len() - pi,
        {
            let placement = &placements[pi];
            let tilesplaced = letters_of(placement);
            if can_be_made_with(tilesplaced.as_slice(), tiles.as_slice()) {
                let child = WordStackFrame {
                    board: board.duplicate(),
                    remaining_tiles: clone_word(tiles),
                    available_words: clone_cache(
                        cache,
                        Ghost(board.spec_cols() as int),
                        Ghost(board.spec_cols() as int),
                        Ghost(limit),
                    ),
                    all_words: clone_words(all_words),
                    placed_letters: clone_batch(placement),
                    recursion_depth: depth + 1,
                };
                proof {
                    let glineb = crate::grid::line_of(board@, position as int, dir);
                    assert(batch_is_sound(
                        placements@[pi as int]@,
                        glineb,
                        word@,
                        position as int,
                        dir,
                    ));
                    let k = choose|k: int|
                        #[trigger] placement_ok(glineb, word@, k) && placements@[pi as int]@
                            == batch_for(glineb, word@, k, position as int, dir);
                    assert(glineb.len() <= usize::MAX) by {
                        match dir {
                            Direction::Horizontal => {
                                assert(glineb == board@[position as int]);
                            },
                            Direction::Vertical => {
                                assert(glineb == crate::grid::col_of(board@, position as int));
                            },
                        }
                    }
                    lemma_batch_keeps_connected(board@, glineb, word@, k, position as int, dir);
                    assert(child.placed_letters@ == placements@[pi as int]@);
                    assert(connected_board(apply_batch_spec(child.board@, child.placed_letters@)));
                    assert(frame_wf(child));
                    assert(child.all_words.deep_view() =~= dict);
                }
                let ghost pre = *state;
                find_minimum_area_configuration(child, eager, state);
                proof {
                    assert(minimum_from(*state, pre, board0, tiles0)) by {
                        if state.minimum != pre.minimum {
                            assert(minimum_from(*state, pre, child.board@, child.remaining_tiles@));
                        }
                    }
                }
            }
            pi = pi + 1;
        }
        wi = wi + 1;
    }
}


/// `w` is one of `words`, letter for letter.
pub open spec fn from_dict(w: Seq<char>, words: Seq<Vec<char>>) -> bool {
    exists|j: int| 0 <= j < words.len() && (#[trigger] words[j])@ == w
}

/// Words worth searching with: nonempty, blank-free, and spellable from
/// the tile pool. Exactly those words of the dictionary are kept.
fn viable_words(words: &Vec<Vec<char>>, tiles: &Vec<char>) -> (out: Vec<Vec<char>>)
    ensures
        good_words(out@, tiles@.len() as int),
        forall|i: int|
            0 <= i < out@.len() ==> can_spell((#[trigger] out@[i])@, tiles@),
        forall|i: int| 0 <= i < out@.len() ==> from_dict((#[trigger] out@[i])@, words@),
        forall|j: int|
            0 <= j < words@.len() && viable((#[trigger] words@[j])@, tiles@) ==> exists|i: int|
                0 <= i < out@.len() && (#[trigger] out@[i])@ == words@[j]@,
{
    let mut out: Vec<Vec<char>> = Vec::new();
    let mut j: usize = 0;
    while j < words.len()
        invariant
            j <= words@.len(),
            good_words(out@, tiles@.len() as int),
            forall|i: int| 0 <= i < out@.len() ==> can_spell((#[trigger] out@[i])@, tiles@),
            forall|i: int| 0 <= i < out@.len() ==> from_dict((#[trigger] out@[i])@, words@),
            forall|jj: int|
                0 <= jj < j && viable((#[trigger] words@[jj])@, tiles@) ==> exists|i: int|
                    0 <= i < out@.len() && (#[trigger] out@[i])@ == words@[jj]@,
        decreases words@.len() - j,
    {
        let w = &words[j];
        let ok_len = w.len() >= 1 && w.len() <= tiles.len();
        let mut no_blank = true;
        let mut t: usize = 0;
        while t < w.len()
            invariant
                t <= w@.len(),
                no_blank <==> (forall|x: int| 0 <= x < t ==> w@[x] != blank()),
            decreases w@.len() - t,
        {
            if w[t] == ' ' {
                no_blank = false;
            }
            t = t + 1;
        }
        if ok_len && no_blank && can_be_made_with(w.as_slice(), tiles.as_slice()) {
            let copied = clone_word(w);
            let ghost pre = out@;
            out.push(copied);
            proof {
                assert forall|i: int| 0 <= i < out@.len() implies {
                    &&& 1 <= (#[trigger] out@[i])@.len() <= tiles@.len()
                    &&& (forall|x: int| 0 <= x < out@[i]@.len() ==> out@[i]@[x] != blank())
                    &&& can_spell(out@[i]@, tiles@)
                    &&& from_dict(out@[i]@, words@)
                } by {
                    if i < pre.len() {
                        assert(out@[i] == pre[i]);
                        assert(1 <= (pre[i])@.len() <= tiles@.len());
                        assert(can_spell(pre[i]@, tiles@));
                        assert(from_dict(pre[i]@, words@));
                    } else {
                        assert(out@[i]@ == words@[j as int]@);
                        assert(from_dict(out@[i]@, words@)) by {
                            assert((#[trigger] words@[j as int])@ == out@[i]@);
                        }
                    }
                }
                assert forall|jj: int|
                    0 <= jj <= j && viable((#[trigger] words@[jj])@, tiles@) implies exists|i: int|
                    0 <= i < out@.len() && (#[trigger] out@[i])@ == words@[jj]@ by {
                    if jj < j {
                        let i = choose|i: int|
                            0 <= i < pre.len() && (#[trigger] pre[i])@ == words@[jj]@;
                        assert(out@[i] == pre[i]);
                        assert(out@[i]@ == words@[jj]@);
                    } else {
                        assert(out@[pre.len() as int]@ == words@[jj]@);
                    }
                }
            }
        } else {
            proof {
                assert(!viable(words@[j as int]@, tiles@));
            }
        }
        j = j + 1;
    }
    out
}

/// A word usable at all: nonempty, blank-free, spellable from the pool.
pub open spec fn viable(w: Seq<char>, tiles: Seq<char>) -> bool {
    &&& 1 <= w.len() <= tiles.len()
    &&& (forall|x: int| 0 <= x < w.len() ==> w[x] != blank())
    &&& can_spell(w, tiles)
}

/// Validity against a dictionary survives enlarging the dictionary.
proof fn lemma_board_valid_superset(
    g: Seq<Seq<char>>,
    cols: int,
    d1: Seq<Seq<char>>,
    d2: Seq<Seq<char>>,
)
    requires
        board_valid(g, cols, d1),
        forall|w: Seq<char>| crate::check::in_dict(d1, w) ==> crate::check::in_dict(d2, w),
    ensures
        board_valid(g, cols, d2),
{
    assert forall|r: int| 0 <= r < g.len() implies crate::check::line_valid(
        #[trigger] g[r],
        d2,
    ) by {
        assert(crate::check::line_valid(g[r], d1));
        assert forall|a: int, b: int|
            #[trigger] crate::check::run_at(g[r], a, b) && b - a >= 2 implies crate::check::in_dict(
            d2,
            g[r].subrange(a, b),
        ) by {
            assert(crate::check::in_dict(d1, g[r].subrange(a, b)));
        }
    }
    assert forall|c: int| 0 <= c < cols implies crate::check::line_valid(
        #[trigger] crate::grid::col_of(g, c),
        d2,
    ) by {
        let line = crate::grid::col_of(g, c);
        assert(crate::check::line_valid(line, d1));
        assert forall|a: int, b: int|
            #[trigger] crate::check::run_at(line, a, b) && b - a >= 2 implies crate::check::in_dict(
            d2,
            line.subrange(a, b),
        ) by {
            assert(crate::check::in_dict(d1, line.subrange(a, b)));
        }
    }
}

/// The search entry point: filter the dictionary down to usable words,
/// size the board at twice the tile count per axis, and run the search.
///
/// A reported board is well-formed, valid against the given dictionary,
/// one connected crossword component, carries its own bounding-box area
/// (never below the tile count), and is built from exactly the given
/// tiles: for every letter, the board holds as many as the pool held.
/// With no tiles, or with no word spellable from them, no board comes
/// back; and when every spellable word spends the whole pool outright,
/// a board must come back. Beyond that one-word case the contract pins
/// every board that is returned without promising one whenever some
/// arrangement exists.
pub fn solve(tiles: Vec<char>, words: Vec<Vec<char>>, eager: bool) -> (result: Option<(Grid, usize)>)
    requires
        4 * tiles@.len() * tiles@.len() <= isize::MAX,
    ensures
        match result {
            Option::None => true,
            Option::Some((g, area)) => {
                &&& g.wf()
                &&& board_valid(g@, g.spec_cols() as int, words.deep_view())
                &&& spec_area(g@) == area
                &&& tiles@.len() <= area < 4 * tiles@.len() * tiles@.len()
                &&& connected_board(g@)
                &&& (forall|ch: char|
                    ch != blank() ==> grid_count(g@, ch) == count_in(tiles@, ch))
            },
        },
        tiles@.len() == 0 ==> result is None,
        (forall|j: int| 0 <= j < words@.len() ==> !viable((#[trigger] words@[j])@, tiles@))
            ==> result is None,
        // success is owed one word away from the start: when every
        // spellable word spends the whole pool and its one-word board
        // fingerprints apart from the blank board, a solution comes back
        ((exists|j: int| 0 <= j < words@.len() && viable((#[trigger] words@[j])@, tiles@)) && (
        forall|j: int|
            0 <= j < words@.len() && viable((#[trigger] words@[j])@, tiles@) ==> words@[j]@.len()
                == tiles@.len() && spec_hash(word_board(words@[j]@, tiles@.len() as int))
                != spec_hash(blank_grid(tiles@.len() as int)))) ==> result is Some,
{
    let ghost tiles_view = tiles@;
    let n = tiles.len();
    proof {
        assert(n + n <= isize::MAX && n + n <= usize::MAX && (n + n) * (n + n) <= isize::MAX
            && n + 2 <= usize::MAX && 4 * n * n == (n + n) * (n + n)) by (nonlinear_arith)
            requires
                4 * n * n <= isize::MAX,
                isize::MAX <= usize::MAX,
                n >= 0,
        ;
    }
    let board_dim = n * 2;
    let viable_list = viable_words(&words, &tiles);
    let board = Grid::new(board_dim, board_dim);
    let mut cache_rows: Vec<Option<Vec<Vec<char>>>> = Vec::new();
    let mut i: usize = 0;
    while i < board_dim
        invariant
            i <= board_dim,
            cache_rows@.len() == i,
            forall|t: int| 0 <= t < i ==> cache_rows@[t] is None,
        decreases board_dim - i,
    {
        cache_rows.push(None);
        i = i + 1;
    }
    let mut cache_cols: Vec<Option<Vec<Vec<char>>>> = Vec::new();
    let mut i: usize = 0;
    while i < board_dim
        invariant
            i <= board_dim,
            cache_cols@.len() == i,
            forall|t: int| 0 <= t < i ==> cache_cols@[t] is None,
        decreases board_dim - i,
    {
        cache_cols.push(None);
        i = i + 1;
    }
    let mut state = SolveState {
        minimum: None,
        minimum_area: board_dim * board_dim,
        hashed_boards: HashSet::new(),
    };
    let ghost dict = viable_list.deep_view();
    let frame = WordStackFrame {
        board,
        remaining_tiles: tiles,
        available_words: WordCache { rows: cache_rows, cols: cache_cols },
        all_words: viable_list,
        placed_letters: Vec::new(),
        recursion_depth: 0,
    };
    proof {
        assert(frame_wf(frame)) by {
            assert(batch_letters(frame.placed_letters@) =~= Seq::<char>::empty());
            assert(frame.placed_letters@ =~= Seq::<LetterPlacement>::empty());
            assert(apply_batch_spec(frame.board@, frame.placed_letters@) == frame.board@);
            assert(connected_board(frame.board@)) by {
                assert forall|a: (int, int), b: (int, int)|
                    #[trigger] occ_at(frame.board@, a) && #[trigger] occ_at(frame.board@, b)
                        implies crate::connectivity::linked(frame.board@, a, b) by {
                    assert(frame.board@[a.0][a.1] == blank());
                }
            }
            assert forall|ch: char| count_in(batch_letters(frame.placed_letters@), ch)
                <= count_in(frame.remaining_tiles@, ch) by {
                assert(count_in(Seq::<char>::empty(), ch) == 0);
            }
            assert(good_words(frame.all_words@, frame.board.spec_cols() as int / 2)) by {
                assert(frame.board.spec_cols() as int / 2 == n);
            }
        }
        assert(state_ok(state, frame.all_words.deep_view()));
    }
    let ghost state0 = state;
    find_minimum_area_configuration(frame, eager, &mut state);
    let best_area = state.minimum_area;
    match state.minimum {
        None => {
            proof {
                if (exists|j: int| 0 <= j < words@.len() && viable((#[trigger] words@[j])@, tiles_view))
                    && (forall|j: int|
                    0 <= j < words@.len() && viable((#[trigger] words@[j])@, tiles_view)
                        ==> words@[j]@.len() == tiles_view.len() && spec_hash(
                        word_board(words@[j]@, tiles_view.len() as int),
                    ) != spec_hash(blank_grid(tiles_view.len() as int))) {
                    // some viable word exists, so the filtered list opens
                    // with one; it spends the pool, and the root frame is
                    // one word from a solution
                    let jv = choose|j: int|
                        0 <= j < words@.len() && viable((#[trigger] words@[j])@, tiles_view);
                    assert(frame.all_words@.len() >= 1) by {
                        assert(viable(words@[jv]@, tiles_view));
                    }
                    let w0 = frame.all_words@[0]@;
                    assert(from_dict(w0, words@));
                    let jx = choose|j: int|
                        0 <= j < words@.len() && (#[trigger] words@[j])@ == w0;
                    assert(viable(words@[jx]@, tiles_view)) by {
                        assert(1 <= w0.len() <= tiles_view.len());
                        assert(forall|x: int| 0 <= x < w0.len() ==> w0[x] != blank());
                        assert(can_spell(w0, tiles_view));
                    }
                    assert(w0.len() == tiles_view.len());
                    let ni = n as int;
                    assert(frame.board@ =~~= blank_grid(ni)) by {
                        assert(frame.board@.len() == 2 * ni && blank_grid(ni).len() == 2 * ni);
                        assert forall|r: int| 0 <= r < 2 * ni implies frame.board@[r] =~= blank_grid(
                            ni,
                        )[r] by {
                            assert((frame.board@[r]).len() == 2 * ni);
                            assert(forall|c: int|
                                0 <= c < 2 * ni ==> frame.board@[r][c] == blank());
                        }
                    }
                    assert(first_word_solves(frame, state0)) by {
                        assert(crate::check::in_dict(dict, w0)) by {
                            assert(dict[0] =~= frame.all_words@[0]@);
                        }
                        lemma_word_board_shape(w0, ni, dict);
                        assert(frame.board.spec_rows() as int / 2 == ni);
                        assert(frame.board.spec_cols() as int / 2 == ni);
                        assert(word_board(w0, ni) == apply_batch_spec(
                            frame.board@,
                            word_row_batch(w0, ni, ni),
                        ));
                        assert(spec_hash(word_board(w0, ni)) != spec_hash(frame.board@)) by {
                            assert(spec_hash(word_board(words@[jx]@, ni)) != spec_hash(
                                blank_grid(ni),
                            ));
                        }
                        assert(1 <= spec_area(word_board(w0, ni)));
                        assert(spec_area(word_board(w0, ni)) < state0.minimum_area) by {
                            assert(ni < 4 * ni * ni) by (nonlinear_arith)
                                requires
                                    ni >= 1,
                            ;
                        }
                        assert(state0.hashed_boards@ =~= Set::<u128>::empty());
                    }
                    assert(state.minimum is Some);
                    assert(false);
                }
            }
            None
        },
        Some(g) => {
            proof {
                if forall|j: int| 0 <= j < words@.len() ==> !viable((#[trigger] words@[j])@, tiles_view) {
                    // no viable word means the search started with an
                    // empty list and recorded nothing
                    assert(frame.all_words@.len() == 0) by {
                        if frame.all_words@.len() > 0 {
                            assert(from_dict(frame.all_words@[0]@, words@));
                            let j = choose|j: int|
                                0 <= j < words@.len() && (#[trigger] words@[j])@
                                    == frame.all_words@[0]@;
                            assert(1 <= words@[j]@.len() <= tiles_view.len());
                            assert(forall|x: int|
                                0 <= x < words@[j]@.len() ==> words@[j]@[x] != blank());
                            assert(can_spell(words@[j]@, tiles_view));
                            assert(viable(words@[j]@, tiles_view));
                        }
                    }
                    if tiles_view.len() > 0 {
                        assert(state.minimum == state0.minimum);
                    } else {
                        // an empty pool gives a zero-area incumbent that
                        // nothing beats
                        assert(n == 0);
                        assert(board_dim == 0);
                        assert(state0.minimum_area == 0);
                        assert(state.minimum == state0.minimum);
                    }
                    assert(false);
                }
                assert(state.minimum != state0.minimum);
                assert(state.minimum_area < state0.minimum_area);
                assert(best_area < 4 * tiles_view.len() * tiles_view.len());
                // a board spending all the tiles spans at least that many
                // cells, so its area cannot undercut the tile count
                lemma_grid_count_blank_total(frame.board@);
                assert(total_cells(g@) - grid_count(g@, blank()) == tiles_view.len());
                lemma_area_ge_letters(g@, g.spec_cols() as int);
                assert(best_area >= tiles_view.len());
                // the recorded board spends exactly the input tiles
                assert forall|ch: char| ch != blank() implies grid_count(g@, ch) == count_in(
                    tiles_view,
                    ch,
                ) by {
                    lemma_grid_count_blank(frame.board@, ch);
                }
                // valid against the filtered list, hence against the
                // dictionary it came from
                assert forall|w: Seq<char>| crate::check::in_dict(dict, w) implies
                    crate::check::in_dict(words.deep_view(), w) by {
                    let i = choose|i: int| 0 <= i < dict.len() && dict[i] == w;
                    assert(dict[i] =~= frame.all_words@[i]@);
                    assert(from_dict(frame.all_words@[i]@, words@));
                    let j = choose|j: int|
                        0 <= j < words@.len() && (#[trigger] words@[j])@ == frame.all_words@[i]@;
                    assert(words.deep_view()[j] =~= words@[j]@);
                }
                lemma_board_valid_superset(
                    g@,
                    g.spec_cols() as int,
                    dict,
                    words.deep_view(),
                );
            }
            Some((g, best_area))
        },
    }
}

} // verus!

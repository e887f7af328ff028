//! Connectivity of the letters on a board.
//!
//! Every placement after the first must touch existing structure, so any
//! board the search builds — and any board it reports — is one crossword
//! component: every two letters are joined by a chain of orthogonally
//! adjacent letters.
use vstd::prelude::*;

use crate::grid::{blank, col_of, line_of, Direction, LetterPlacement};
use crate::placements::{
    apply_batch_spec, batch_elem_ok, batch_for, batch_wf, cell_col, cell_row, in_batch,
    lemma_apply_batch_cells, lemma_batch_prefix_props, line_index, placement_ok,
};
use crate::tiles::{count_in, lemma_count_in_all};

verus! {

/// Orthogonally adjacent cells.
pub open spec fn adjacent(a: (int, int), b: (int, int)) -> bool {
    ||| (a.0 == b.0 && (a.1 == b.1 + 1 || a.1 + 1 == b.1))
    ||| (a.1 == b.1 && (a.0 == b.0 + 1 || a.0 + 1 == b.0))
}

/// Cell `p` of `g` holds a letter.
pub open spec fn occ_at(g: Seq<Seq<char>>, p: (int, int)) -> bool {
    &&& 0 <= p.0 < g.len()
    &&& 0 <= p.1 < g[p.0].len()
    &&& g[p.0][p.1] != blank()
}

/// A chain of occupied, consecutively adjacent cells.
pub open spec fn is_chain(g: Seq<Seq<char>>, p: Seq<(int, int)>) -> bool {
    &&& p.len() >= 1
    &&& (forall|i: int| 0 <= i < p.len() ==> occ_at(g, #[trigger] p[i]))
    &&& (forall|i: int| 0 <= i < p.len() - 1 ==> adjacent(#[trigger] p[i], p[i + 1]))
}

/// Two cells joined by a chain of letters.
pub open spec fn linked(g: Seq<Seq<char>>, a: (int, int), b: (int, int)) -> bool {
    exists|p: Seq<(int, int)>| #[trigger] is_chain(g, p) && p.first() == a && p.last() == b
}

/// All letters of the board form one crossword component.
pub open spec fn connected_board(g: Seq<Seq<char>>) -> bool {
    forall|a: (int, int), b: (int, int)|
        #[trigger] occ_at(g, a) && #[trigger] occ_at(g, b) ==> linked(g, a, b)
}

/// A chain survives into any board with at least the same letters.
proof fn lemma_linked_mono(g1: Seq<Seq<char>>, g2: Seq<Seq<char>>, a: (int, int), b: (int, int))
    requires
        linked(g1, a, b),
        forall|q: (int, int)| #[trigger] occ_at(g1, q) ==> occ_at(g2, q),
    ensures
        linked(g2, a, b),
{
    let p = choose|p: Seq<(int, int)>| #[trigger] is_chain(g1, p) && p.first() == a && p.last() == b;
    assert(is_chain(g2, p)) by {
        assert forall|i: int| 0 <= i < p.len() implies occ_at(g2, #[trigger] p[i]) by {
            assert(occ_at(g1, p[i]));
        }
    }
}

/// Chains reverse.
proof fn lemma_linked_sym(g: Seq<Seq<char>>, a: (int, int), b: (int, int))
    requires
        linked(g, a, b),
    ensures
        linked(g, b, a),
{
    let p = choose|p: Seq<(int, int)>| #[trigger] is_chain(g, p) && p.first() == a && p.last() == b;
    let q = p.reverse();
    assert(is_chain(g, q)) by {
        assert forall|i: int| 0 <= i < q.len() implies occ_at(g, #[trigger] q[i]) by {
            assert(q[i] == p[p.len() - 1 - i]);
        }
        assert forall|i: int| 0 <= i < q.len() - 1 implies adjacent(#[trigger] q[i], q[i + 1]) by {
            assert(q[i] == p[p.len() - 1 - i]);
            assert(q[i + 1] == p[p.len() - 2 - i]);
            assert(adjacent(p[p.len() - 2 - i], p[p.len() - 1 - i]));
        }
    }
    assert(q.first() == b && q.last() == a);
}

/// Chains concatenate.
proof fn lemma_linked_trans(g: Seq<Seq<char>>, a: (int, int), b: (int, int), c: (int, int))
    requires
        linked(g, a, b),
        linked(g, b, c),
    ensures
        linked(g, a, c),
{
    let p1 = choose|p: Seq<(int, int)>| #[trigger] is_chain(g, p) && p.first() == a && p.last() == b;
    let p2 = choose|p: Seq<(int, int)>| #[trigger] is_chain(g, p) && p.first() == b && p.last() == c;
    if p2.len() == 1 {
        assert(b == c);
        assert(is_chain(g, p1) && p1.first() == a && p1.last() == c);
    } else {
        let p = p1 + p2.drop_first();
        assert(p.len() == p1.len() + p2.len() - 1);
        assert(is_chain(g, p)) by {
            assert forall|i: int| 0 <= i < p.len() implies occ_at(g, #[trigger] p[i]) by {
                if i < p1.len() {
                    assert(p[i] == p1[i]);
                } else {
                    assert(p[i] == p2.drop_first()[i - p1.len()]);
                    assert(p2.drop_first()[i - p1.len()] == p2[i - p1.len() + 1]);
                }
            }
            assert forall|i: int| 0 <= i < p.len() - 1 implies adjacent(
                #[trigger] p[i],
                p[i + 1],
            ) by {
                if i + 1 < p1.len() {
                    assert(p[i] == p1[i] && p[i + 1] == p1[i + 1]);
                } else if i + 1 == p1.len() {
                    assert(p[i] == p1[i] && p1[i] == p1.last());
                    assert(p[i + 1] == p2.drop_first()[0]);
                    assert(p2.drop_first()[0] == p2[1]);
                    assert(adjacent(p2[0], p2[1]));
                } else {
                    assert(p[i] == p2.drop_first()[i - p1.len()]);
                    assert(p[i + 1] == p2.drop_first()[i + 1 - p1.len()]);
                    assert(p2.drop_first()[i - p1.len()] == p2[i - p1.len() + 1]);
                    assert(p2.drop_first()[i + 1 - p1.len()] == p2[i + 2 - p1.len()]);
                    assert(adjacent(p2[i - p1.len() + 1], p2[i - p1.len() + 2]));
                }
            }
        }
        assert(p.first() == a);
        assert(p.last() == p2.drop_first()[p2.len() - 2]);
        assert(p2.drop_first()[p2.len() - 2] == p2[p2.len() - 1]);
    }
}

/// Any two letters of one straight occupied row segment are joined.
proof fn lemma_row_segment_linked(g: Seq<Seq<char>>, r: int, c1: int, c2: int)
    requires
        c1 <= c2,
        forall|x: int| c1 <= x <= c2 ==> occ_at(g, (r, x)),
    ensures
        linked(g, (r, c1), (r, c2)),
    decreases c2 - c1,
{
    if c1 == c2 {
        let p = seq![(r, c1)];
        assert(occ_at(g, (r, c1)));
        assert(is_chain(g, p) && p.first() == (r, c1) && p.last() == (r, c2));
    } else {
        lemma_row_segment_linked(g, r, c1, c2 - 1);
        let p = seq![(r, c2 - 1), (r, c2)];
        assert(occ_at(g, (r, c2 - 1)) && occ_at(g, (r, c2)));
        assert(adjacent(p[0], p[1]));
        assert(is_chain(g, p) && p.first() == (r, c2 - 1) && p.last() == (r, c2));
        assert(linked(g, (r, c2 - 1), (r, c2)));
        lemma_linked_trans(g, (r, c1), (r, c2 - 1), (r, c2));
    }
}

/// Any two letters of one straight occupied column segment are joined.
proof fn lemma_col_segment_linked(g: Seq<Seq<char>>, c: int, r1: int, r2: int)
    requires
        r1 <= r2,
        forall|x: int| r1 <= x <= r2 ==> occ_at(g, (x, c)),
    ensures
        linked(g, (r1, c), (r2, c)),
    decreases r2 - r1,
{
    if r1 == r2 {
        let p = seq![(r1, c)];
        assert(occ_at(g, (r1, c)));
        assert(is_chain(g, p) && p.first() == (r1, c) && p.last() == (r2, c));
    } else {
        lemma_col_segment_linked(g, c, r1, r2 - 1);
        let p = seq![(r2 - 1, c), (r2, c)];
        assert(occ_at(g, (r2 - 1, c)) && occ_at(g, (r2, c)));
        assert(adjacent(p[0], p[1]));
        assert(is_chain(g, p) && p.first() == (r2 - 1, c) && p.last() == (r2, c));
        assert(linked(g, (r2 - 1, c), (r2, c)));
        lemma_linked_trans(g, (r1, c), (r2 - 1, c), (r2, c));
    }
}

/// The cell at position `x` of the line at `pos`.
pub open spec fn span_cell(pos: int, dir: Direction, x: int) -> (int, int) {
    (cell_row(pos, dir, x), cell_col(pos, dir, x))
}

/// Any two letters of one straight occupied span are joined, whichever
/// way the span runs and whichever order the two sit in.
proof fn lemma_span_linked(
    g: Seq<Seq<char>>,
    pos: int,
    dir: Direction,
    lo: int,
    hi: int,
    xa: int,
    xb: int,
)
    requires
        lo <= xa <= hi,
        lo <= xb <= hi,
        forall|x: int| lo <= x <= hi ==> occ_at(g, #[trigger] span_cell(pos, dir, x)),
    ensures
        linked(g, span_cell(pos, dir, xa), span_cell(pos, dir, xb)),
{
    let (x1, x2) = if xa <= xb {
        (xa, xb)
    } else {
        (xb, xa)
    };
    match dir {
        Direction::Horizontal => {
            assert forall|x: int| x1 <= x <= x2 implies occ_at(g, (pos, x)) by {
                assert(occ_at(g, span_cell(pos, dir, x)));
            }
            lemma_row_segment_linked(g, pos, x1, x2);
            assert(span_cell(pos, dir, x1) == (pos, x1));
        },
        Direction::Vertical => {
            assert forall|x: int| x1 <= x <= x2 implies occ_at(g, (x, pos)) by {
                assert(occ_at(g, span_cell(pos, dir, x)));
            }
            lemma_col_segment_linked(g, pos, x1, x2);
            assert(span_cell(pos, dir, x1) == (x1, pos));
        },
    }
    if xa <= xb {
    } else {
        lemma_linked_sym(g, span_cell(pos, dir, x1), span_cell(pos, dir, x2));
    }
}

/// The first word on a blank board leaves one connected row of letters.
pub proof fn lemma_first_word_connected(
    g: Seq<Seq<char>>,
    batch: Seq<LetterPlacement>,
    r0: int,
    c0: int,
)
    requires
        batch_wf(batch, g),
        batch.len() >= 1,
        forall|r: int, c: int| 0 <= r < g.len() && 0 <= c < g[r].len() ==> g[r][c] == blank(),
        forall|i: int|
            0 <= i < batch.len() ==> (#[trigger] batch[i]).row == r0 && batch[i].col == c0 + i,
    ensures
        connected_board(apply_batch_spec(g, batch)),
{
    lemma_apply_batch_cells(g, batch);
    let g2 = apply_batch_spec(g, batch);
    assert forall|q: (int, int)| #[trigger] occ_at(g2, q) implies q.0 == r0 && c0 <= q.1 < c0
        + batch.len() by {
        if !in_batch(batch, q.0, q.1) {
            assert(g2[q.0][q.1] == g[q.0][q.1]);
        } else {
            let i = choose|i: int|
                0 <= i < batch.len() && (#[trigger] batch[i]).row == q.0 && batch[i].col == q.1;
            assert(batch[i].row == r0 && batch[i].col == c0 + i);
        }
    }
    assert forall|x: int| c0 <= x <= c0 + batch.len() - 1 implies occ_at(g2, (r0, x)) by {
        let i = x - c0;
        assert(batch[i].row == r0 && batch[i].col == x);
        assert(g2[(batch[i]).row as int][batch[i].col as int] == batch[i].letter);
        assert(batch[i].letter != blank());
        assert(batch[i].row < g.len() && batch[i].col < g[batch[i].row as int].len());
    }
    assert forall|a: (int, int), b: (int, int)|
        #[trigger] occ_at(g2, a) && #[trigger] occ_at(g2, b) implies linked(g2, a, b) by {
        assert(a == (r0, a.1) && b == (r0, b.1));
        if a.1 <= b.1 {
            lemma_row_segment_linked(g2, r0, a.1, b.1);
        } else {
            lemma_row_segment_linked(g2, r0, b.1, a.1);
            lemma_linked_sym(g2, (r0, b.1), (r0, a.1));
        }
    }
}

/// Writing an accepted batch into a connected board leaves it connected:
/// the word's whole span ends up occupied, it contains a letter the board
/// already had, and every new letter sits on that span.
pub proof fn lemma_batch_keeps_connected(
    g: Seq<Seq<char>>,
    line: Seq<char>,
    word: Seq<char>,
    k: int,
    pos: int,
    dir: Direction,
)
    requires
        0 <= pos <= usize::MAX,
        line.len() <= usize::MAX,
        line == line_of(g, pos, dir),
        dir == Direction::Horizontal ==> 0 <= pos < g.len(),
        dir == Direction::Vertical ==> forall|r: int|
            0 <= r < g.len() ==> pos < (#[trigger] g[r]).len(),
        placement_ok(line, word, k),
        forall|j: int| 0 <= j < word.len() ==> word[j] != blank(),
        batch_wf(batch_for(line, word, k, pos, dir), g),
        connected_board(g),
    ensures
        connected_board(apply_batch_spec(g, batch_for(line, word, k, pos, dir))),
{
    let batch = batch_for(line, word, k, pos, dir);
    let wl = word.len() as int;
    lemma_batch_prefix_props(line, word, k, pos, dir, wl);
    lemma_apply_batch_cells(g, batch);
    let g2 = apply_batch_spec(g, batch);
    // the board only gains letters
    assert forall|q: (int, int)| #[trigger] occ_at(g, q) implies occ_at(g2, q) by {
        if in_batch(batch, q.0, q.1) {
            let i = choose|i: int|
                0 <= i < batch.len() && (#[trigger] batch[i]).row == q.0 && batch[i].col == q.1;
            assert(g[batch[i].row as int][batch[i].col as int] == blank());
        } else {
            assert(g2[q.0][q.1] == g[q.0][q.1]);
        }
    }
    // after the batch, the whole span is occupied
    assert forall|x: int| k <= x < k + wl implies occ_at(g2, #[trigger] span_cell(pos, dir, x)) by {
        match dir {
            Direction::Horizontal => {
                assert(line[x] == g[pos][x]);
            },
            Direction::Vertical => {
                assert(line[x] == col_of(g, pos)[x]);
                assert(line[x] == g[x][pos]);
            },
        }
        if line[x] == blank() {
            let i = choose|i: int|
                0 <= i < batch.len() && line_index(#[trigger] batch[i], dir) == x;
            assert(batch_elem_ok(line, word, k, pos, dir, wl, batch[i]));
            assert(g2[(batch[i]).row as int][batch[i].col as int] == batch[i].letter);
            assert(batch[i].letter == word[x - k] && word[x - k] != blank());
            assert(batch[i].row < g.len() && batch[i].col < g[batch[i].row as int].len());
            assert(batch[i].row == cell_row(pos, dir, x) && batch[i].col == cell_col(pos, dir, x));
        } else {
            assert(occ_at(g, span_cell(pos, dir, x)));
        }
    }
    // the span holds a letter the board already had: the anchor
    let sub = line.subrange(k, k + wl);
    lemma_count_in_all(sub, blank());
    assert(count_in(sub, blank()) < sub.len());
    let t = choose|t: int| 0 <= t < sub.len() && sub[t] != blank();
    let x0 = k + t;
    assert(line[x0] != blank());
    let anchor = span_cell(pos, dir, x0);
    assert(occ_at(g, anchor)) by {
        match dir {
            Direction::Horizontal => {
                assert(line[x0] == g[pos][x0]);
            },
            Direction::Vertical => {
                assert(line[x0] == col_of(g, pos)[x0]);
                assert(line[x0] == g[x0][pos]);
            },
        }
    }
    // every letter of the new board reaches the anchor
    assert forall|q: (int, int)| #[trigger] occ_at(g2, q) implies linked(g2, q, anchor) by {
        if occ_at(g, q) {
            assert(linked(g, q, anchor));
            lemma_linked_mono(g, g2, q, anchor);
        } else {
            assert(in_batch(batch, q.0, q.1)) by {
                if !in_batch(batch, q.0, q.1) {
                    assert(g2[q.0][q.1] == g[q.0][q.1]);
                }
            }
            let i = choose|i: int|
                0 <= i < batch.len() && (#[trigger] batch[i]).row == q.0 && batch[i].col == q.1;
            assert(batch_elem_ok(line, word, k, pos, dir, wl, batch[i]));
            let x = line_index(batch[i], dir);
            assert(q == span_cell(pos, dir, x));
            lemma_span_linked(g2, pos, dir, k, k + wl - 1, x, x0);
        }
    }
    // so any two letters are joined through it
    assert forall|a: (int, int), b: (int, int)|
        #[trigger] occ_at(g2, a) && #[trigger] occ_at(g2, b) implies linked(g2, a, b) by {
        assert(linked(g2, a, anchor));
        assert(linked(g2, b, anchor));
        lemma_linked_sym(g2, b, anchor);
        lemma_linked_trans(g2, a, anchor, b);
    }
}

} // verus!

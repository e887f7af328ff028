//! Turning an accepted word-and-offset into the letters that must be
//! written to the board.
//!
//! A batch is the list of placements for the blank cells a word would
//! cover at one offset of one line; cells already holding the right
//! letter contribute nothing. An offset is accepted when the overlay
//! conflicts with no placed letter, touches at least one placed letter
//! (connectivity), writes at least one new letter, and is blank-bounded
//! on both sides (the word stands exactly, not as part of a longer run).
use vstd::prelude::*;

use crate::fit::compat;
use crate::grid::{blank, line_of, Direction, Grid, LetterPlacement};
use crate::tiles::count_in;

verus! {

/// Row of the cell at position `idx` of the line at `pos`.
pub open spec fn cell_row(pos: int, dir: Direction, idx: int) -> int {
    match dir {
        Direction::Horizontal => pos,
        Direction::Vertical => idx,
    }
}

/// Column of the cell at position `idx` of the line at `pos`.
pub open spec fn cell_col(pos: int, dir: Direction, idx: int) -> int {
    match dir {
        Direction::Horizontal => idx,
        Direction::Vertical => pos,
    }
}

/// The position along its line of the cell a placement writes.
pub open spec fn line_index(pl: LetterPlacement, dir: Direction) -> int {
    match dir {
        Direction::Horizontal => pl.col as int,
        Direction::Vertical => pl.row as int,
    }
}

/// Blanks among the `len` cells of `line` starting at `k`.
pub open spec fn blanks_in_span(line: Seq<char>, k: int, len: int) -> nat {
    count_in(line.subrange(k, k + len), blank())
}

/// Offset `k` of `line` accepts `word`: in range, conflict-free,
/// connected to existing structure, writing at least one new letter,
/// and blank-bounded so the word stands as a whole run.
pub open spec fn placement_ok(line: Seq<char>, word: Seq<char>, k: int) -> bool {
    &&& 0 <= k
    &&& k + word.len() <= line.len()
    &&& compat(line, word, k)
    &&& blanks_in_span(line, k, word.len() as int) >= 1
    &&& blanks_in_span(line, k, word.len() as int) < word.len()
    &&& (k == 0 || line[k - 1] == blank())
    &&& (k + word.len() == line.len() || line[k + word.len()] == blank())
}

/// The write for position `x` of the line at `pos`: the word letter
/// that the overlay starting at `k` puts there.
pub open spec fn placement_at(
    word: Seq<char>,
    k: int,
    pos: int,
    dir: Direction,
    x: int,
) -> LetterPlacement {
    LetterPlacement {
        letter: word[x - k],
        row: cell_row(pos, dir, x) as usize,
        col: cell_col(pos, dir, x) as usize,
    }
}

/// The placements for the first `j` letters of `word` overlaid on
/// `line` at `k`: one write per blank cell of the span.
pub open spec fn batch_prefix(
    line: Seq<char>,
    word: Seq<char>,
    k: int,
    pos: int,
    dir: Direction,
    j: int,
) -> Seq<LetterPlacement>
    decreases j,
{
    if j <= 0 {
        Seq::empty()
    } else {
        batch_prefix(line, word, k, pos, dir, j - 1) + (if line[k + j - 1] == blank() {
            seq![placement_at(word, k, pos, dir, k + j - 1)]
        } else {
            Seq::empty()
        })
    }
}

/// The full batch for `word` overlaid on `line` at `k`.
pub open spec fn batch_for(
    line: Seq<char>,
    word: Seq<char>,
    k: int,
    pos: int,
    dir: Direction,
) -> Seq<LetterPlacement> {
    batch_prefix(line, word, k, pos, dir, word.len() as int)
}

/// One placement of a batch: it writes a word letter to a blank cell of
/// the span, at its own position along the line.
pub open spec fn batch_elem_ok(
    line: Seq<char>,
    word: Seq<char>,
    k: int,
    pos: int,
    dir: Direction,
    j: int,
    pl: LetterPlacement,
) -> bool {
    let x = line_index(pl, dir);
    &&& k <= x < k + j
    &&& line[x] == blank()
    &&& pl.letter == word[x - k]
    &&& pl.row == cell_row(pos, dir, x)
    &&& pl.col == cell_col(pos, dir, x)
}

/// What every batch built for a span satisfies: as many placements as
/// the span has blanks, each writing a word letter to the blank cell at
/// its own strictly increasing line position.
pub proof fn lemma_batch_prefix_props(
    line: Seq<char>,
    word: Seq<char>,
    k: int,
    pos: int,
    dir: Direction,
    j: int,
)
    requires
        0 <= k,
        0 <= j <= word.len(),
        k + word.len() <= line.len(),
        line.len() <= usize::MAX,
        0 <= pos <= usize::MAX,
    ensures
        batch_prefix(line, word, k, pos, dir, j).len() == blanks_in_span(line, k, j),
        forall|i: int|
            0 <= i < batch_prefix(line, word, k, pos, dir, j).len() ==> batch_elem_ok(
                line,
                word,
                k,
                pos,
                dir,
                j,
                #[trigger] batch_prefix(line, word, k, pos, dir, j)[i],
            ),
        forall|i1: int, i2: int|
            0 <= i1 < i2 < batch_prefix(line, word, k, pos, dir, j).len() ==> line_index(
                #[trigger] batch_prefix(line, word, k, pos, dir, j)[i1],
                dir,
            ) < line_index(#[trigger] batch_prefix(line, word, k, pos, dir, j)[i2], dir),
        forall|x: int|
            k <= x < k + j && line[x] == blank() ==> exists|i: int|
                0 <= i < batch_prefix(line, word, k, pos, dir, j).len() && line_index(
                    #[trigger] batch_prefix(line, word, k, pos, dir, j)[i],
                    dir,
                ) == x,
    decreases j,
{
    if j > 0 {
        lemma_batch_prefix_props(line, word, k, pos, dir, j - 1);
        assert(line.subrange(k, k + j).drop_last() =~= line.subrange(k, k + j - 1));
        assert(line.subrange(k, k + j).last() == line[k + j - 1]);
        let prev = batch_prefix(line, word, k, pos, dir, j - 1);
        let cur = batch_prefix(line, word, k, pos, dir, j);
        assert forall|i: int| 0 <= i < prev.len() implies batch_elem_ok(
            line,
            word,
            k,
            pos,
            dir,
            j,
            prev[i],
        ) by {
            assert(batch_elem_ok(line, word, k, pos, dir, j - 1, prev[i]));
        }
        if line[k + j - 1] == blank() {
            let pl = placement_at(word, k, pos, dir, k + j - 1);
            assert(cur =~= prev.push(pl));
            assert(line_index(pl, dir) == k + j - 1);
            assert(batch_elem_ok(line, word, k, pos, dir, j, pl));
            assert forall|x: int| k <= x < k + j && line[x] == blank() implies exists|i: int|
                0 <= i < cur.len() && line_index(#[trigger] cur[i], dir) == x by {
                if x < k + j - 1 {
                    let i = choose|i: int|
                        0 <= i < prev.len() && line_index(#[trigger] prev[i], dir) == x;
                    assert(cur[i] == prev[i]);
                    assert(line_index(cur[i], dir) == x);
                } else {
                    assert(line_index(cur[cur.len() - 1], dir) == x);
                }
            }
        } else {
            assert(cur =~= prev);
            assert forall|x: int| k <= x < k + j && line[x] == blank() implies exists|i: int|
                0 <= i < cur.len() && line_index(#[trigger] cur[i], dir) == x by {
                let i = choose|i: int|
                    0 <= i < prev.len() && line_index(#[trigger] prev[i], dir) == x;
                assert(cur[i] == prev[i]);
                assert(line_index(cur[i], dir) == x);
            }
        }
    } else {
        assert(line.subrange(k, k) =~= Seq::<char>::empty());
    }
}

/// The board `g` with every placement of `batch` written, in order.
pub open spec fn apply_batch_spec(g: Seq<Seq<char>>, batch: Seq<LetterPlacement>) -> Seq<Seq<char>>
    decreases batch.len(),
{
    if batch.len() == 0 {
        g
    } else {
        let pre = apply_batch_spec(g, batch.drop_last());
        let pl = batch.last();
        pre.update(pl.row as int, pre[pl.row as int].update(pl.col as int, pl.letter))
    }
}

/// Some placement of `batch` writes cell (r, c).
pub open spec fn in_batch(batch: Seq<LetterPlacement>, r: int, c: int) -> bool {
    exists|i: int| 0 <= i < batch.len() && (#[trigger] batch[i]).row == r && batch[i].col == c
}

/// A batch can be applied to board `g`: every placement writes a letter
/// to a blank in-range cell, and no two placements write the same cell.
pub open spec fn batch_wf(batch: Seq<LetterPlacement>, g: Seq<Seq<char>>) -> bool {
    &&& (forall|i: int|
        0 <= i < batch.len() ==> {
            let pl = #[trigger] batch[i];
            &&& pl.row < g.len()
            &&& pl.col < g[pl.row as int].len()
            &&& g[pl.row as int][pl.col as int] == blank()
            &&& pl.letter != blank()
        })
    &&& (forall|i1: int, i2: int|
        #![trigger batch[i1], batch[i2]]
        0 <= i1 < i2 < batch.len() ==> (batch[i1].row != batch[i2].row || batch[i1].col
            != batch[i2].col))
}

/// What a batch does to the board, cell by cell: every placement's cell
/// gets its letter; every other cell keeps what it had.
pub proof fn lemma_apply_batch_cells(g: Seq<Seq<char>>, batch: Seq<LetterPlacement>)
    requires
        batch_wf(batch, g),
    ensures
        apply_batch_spec(g, batch).len() == g.len(),
        forall|r: int|
            0 <= r < g.len() ==> (#[trigger] apply_batch_spec(g, batch)[r]).len() == g[r].len(),
        forall|r: int, c: int|
            0 <= r < g.len() && 0 <= c < g[r].len() && !in_batch(batch, r, c)
                ==> apply_batch_spec(g, batch)[r][c] == g[r][c],
        forall|i: int|
            0 <= i < batch.len() ==> apply_batch_spec(g, batch)[(#[trigger] batch[i]).row as int][
                batch[i].col as int] == batch[i].letter,
    decreases batch.len(),
{
    if batch.len() > 0 {
        let head = batch.drop_last();
        let pl = batch.last();
        assert(batch_wf(head, g)) by {
            assert forall|i: int| 0 <= i < head.len() implies {
                let p = #[trigger] head[i];
                &&& p.row < g.len()
                &&& p.col < g[p.row as int].len()
                &&& g[p.row as int][p.col as int] == blank()
                &&& p.letter != blank()
            } by {
                assert(head[i] == batch[i]);
            }
            assert forall|i1: int, i2: int|
                #![trigger head[i1], head[i2]]
                0 <= i1 < i2 < head.len() implies (head[i1].row != head[i2].row || head[i1].col
                != head[i2].col) by {
                assert(head[i1] == batch[i1] && head[i2] == batch[i2]);
            }
        }
        lemma_apply_batch_cells(g, head);
        let pre = apply_batch_spec(g, head);
        let cur = apply_batch_spec(g, batch);
        assert(cur == pre.update(pl.row as int, pre[pl.row as int].update(pl.col as int, pl.letter)));
        assert forall|r: int, c: int|
            0 <= r < g.len() && 0 <= c < g[r].len() && !in_batch(batch, r, c) implies cur[r][c]
            == g[r][c] by {
            assert(!in_batch(head, r, c)) by {
                if in_batch(head, r, c) {
                    let i = choose|i: int|
                        0 <= i < head.len() && (#[trigger] head[i]).row == r && head[i].col == c;
                    assert(batch[i].row == r && batch[i].col == c);
                }
            }
            assert(!(pl.row == r && pl.col == c)) by {
                if pl.row == r && pl.col == c {
                    assert(batch[batch.len() - 1].row == r && batch[batch.len() - 1].col == c);
                }
            }
        }
        assert forall|i: int|
            0 <= i < batch.len() implies cur[(#[trigger] batch[i]).row as int][batch[i].col as int]
            == batch[i].letter by {
            if i < batch.len() - 1 {
                assert(head[i] == batch[i]);
                assert(pre[batch[i].row as int][batch[i].col as int] == batch[i].letter);
                assert(batch[i].row != pl.row || batch[i].col != pl.col);
            }
        }
    }
}

/// `result` holds the batch for offset `k`.
pub open spec fn contains_batch(
    result: Seq<Vec<LetterPlacement>>,
    line: Seq<char>,
    word: Seq<char>,
    k: int,
    pos: int,
    dir: Direction,
) -> bool {
    exists|i: int|
        0 <= i < result.len() && (#[trigger] result[i])@ == batch_for(line, word, k, pos, dir)
}

/// `b` is the batch of some accepted offset of `word` on `line`.
pub open spec fn batch_is_sound(
    b: Seq<LetterPlacement>,
    line: Seq<char>,
    word: Seq<char>,
    pos: int,
    dir: Direction,
) -> bool {
    exists|k: int| #[trigger] placement_ok(line, word, k) && b == batch_for(line, word, k, pos, dir)
}

/// The write for the letter at position `i` of a word laid left to
/// right in row `r0` from column `c0`.
pub open spec fn row_cell_placement(w: Seq<char>, c0: int, r0: int, i: int) -> LetterPlacement {
    LetterPlacement { letter: w[i], row: r0 as usize, col: (c0 + i) as usize }
}

/// The batch of one whole word laid left to right in row `r0`, its
/// first letter at column `c0`: what the first placement on a blank
/// board writes.
pub open spec fn word_row_batch(w: Seq<char>, c0: int, r0: int) -> Seq<LetterPlacement> {
    Seq::new(w.len(), |i: int| row_cell_placement(w, c0, r0, i))
}

/// Build one placement.
fn mk_placement(letter: char, row: usize, col: usize) -> (pl: LetterPlacement)
    ensures
        pl.letter == letter && pl.row == row && pl.col == col,
{
    LetterPlacement { letter, row, col }
}

/// The batch of one whole word placed in the open, starting at column
/// `c0` (horizontal) or row `r0` (vertical): one placement per letter.
pub fn place_word_at(
    word: &[char],
    c0: usize,
    r0: usize,
    dir: Direction,
) -> (v: Vec<LetterPlacement>)
    requires
        c0 + word@.len() <= usize::MAX,
        r0 + word@.len() <= usize::MAX,
    ensures
        v@.len() == word@.len(),
        forall|i: int| 0 <= i < word@.len() ==> (#[trigger] v@[i]).letter == word@[i],
        dir == Direction::Horizontal ==> forall|i: int|
            0 <= i < word@.len() ==> (#[trigger] v@[i]).row == r0 && v@[i].col == c0 + i,
        dir == Direction::Vertical ==> forall|i: int|
            0 <= i < word@.len() ==> (#[trigger] v@[i]).row == r0 + i && v@[i].col == c0,
{
    let mut v: Vec<LetterPlacement> = Vec::new();
    let mut i: usize = 0;
    while i < word.len()
        invariant
            i <= word@.len(),
            c0 + word@.len() <= usize::MAX,
            r0 + word@.len() <= usize::MAX,
            v@.len() == i,
            forall|x: int| 0 <= x < i ==> (#[trigger] v@[x]).letter == word@[x],
            dir == Direction::Horizontal ==> forall|x: int|
                0 <= x < i ==> (#[trigger] v@[x]).row == r0 && v@[x].col == c0 + x,
            dir == Direction::Vertical ==> forall|x: int|
                0 <= x < i ==> (#[trigger] v@[x]).row == r0 + x && v@[x].col == c0,
        decreases word@.len() - i,
    {
        let letter = word[i];
        match dir {
            Direction::Horizontal => {
                let pl = mk_placement(letter, r0, c0 + i);
                v.push(pl);
            },
            Direction::Vertical => {
                let pl = mk_placement(letter, r0 + i, c0);
                v.push(pl);
            },
        }
        i = i + 1;
    }
    v
}


impl Grid {
    /// Every accepted way to lay `word` into the line at `position`
    /// along `dir`: for each accepted offset, the batch of letters that
    /// must be written.
    #[verifier::rlimit(100)]
    pub fn word_placements_for(
        &self,
        word: &[char],
        position: usize,
        dir: Direction,
    ) -> (result: Vec<Vec<LetterPlacement>>)
        requires
            self.wf(),
            word@.len() >= 1,
            forall|j: int| 0 <= j < word@.len() ==> word@[j] != blank(),
            dir == Direction::Horizontal ==> position < self.spec_rows(),
            dir == Direction::Vertical ==> position < self.spec_cols(),
        ensures
            forall|i: int|
                0 <= i < result@.len() ==> batch_is_sound(
                    (#[trigger] result@[i])@,
                    line_of(self@, position as int, dir),
                    word@,
                    position as int,
                    dir,
                ),
            forall|k: int|
                #[trigger] placement_ok(line_of(self@, position as int, dir), word@, k)
                    ==> contains_batch(
                    result@,
                    line_of(self@, position as int, dir),
                    word@,
                    k,
                    position as int,
                    dir,
                ),
            forall|i: int| 0 <= i < result@.len() ==> batch_wf((#[trigger] result@[i])@, self@),
    {
        let ghost gline = line_of(self@, position as int, dir);
        let line = self.words_at(position, dir);
        let mut result: Vec<Vec<LetterPlacement>> = Vec::new();
        if word.len() > line.len() {
            return result;
        }
        let last = line.len() - word.len();
        let mut k: usize = 0;
        while k <= last
            invariant
                self.wf(),
                word@.len() >= 1,
                forall|j: int| 0 <= j < word@.len() ==> word@[j] != blank(),
                dir == Direction::Horizontal ==> position < self.spec_rows(),
                dir == Direction::Vertical ==> position < self.spec_cols(),
                line@ == gline,
                gline == line_of(self@, position as int, dir),
                word@.len() <= line@.len(),
                line@.len() <= usize::MAX,
                last == line@.len() - word@.len(),
                k <= last + 1,
                forall|i: int|
                    0 <= i < result@.len() ==> batch_is_sound(
                        (#[trigger] result@[i])@,
                        gline,
                        word@,
                        position as int,
                        dir,
                    ),
                forall|kk: int|
                    0 <= kk < k && #[trigger] placement_ok(gline, word@, kk) ==> contains_batch(
                        result@,
                        gline,
                        word@,
                        kk,
                        position as int,
                        dir,
                    ),
                forall|i: int| 0 <= i < result@.len() ==> batch_wf((#[trigger] result@[i])@, self@),
            decreases last + 1 - k,
        {
            let mut batch: Vec<LetterPlacement> = Vec::new();
            let mut connected = false;
            let mut conflict = false;
            let mut j: usize = 0;
            while j < word.len() && !conflict
                invariant
                    self.wf(),
                    j <= word@.len(),
                    word@.len() >= 1,
                    k + word@.len() <= line@.len(),
                    line@.len() <= usize::MAX,
                    line@ == gline,
                    gline == line_of(self@, position as int, dir),
                    dir == Direction::Horizontal ==> position < self.spec_rows(),
                    dir == Direction::Vertical ==> position < self.spec_cols(),
                    !conflict ==> batch@ == batch_prefix(
                        gline,
                        word@,
                        k as int,
                        position as int,
                        dir,
                        j as int,
                    ),
                    !conflict ==> (forall|t: int|
                        0 <= t < j ==> gline[k + t] == blank() || gline[k + t] == #[trigger] word@[t]),
                    !conflict ==> (connected <==> exists|t: int|
                        0 <= t < j && gline[k + t] != blank() && gline[k + t] == #[trigger] word@[t]),
                    conflict ==> !compat(gline, word@, k as int),
                decreases word@.len() - j,
            {
                let cell = line[k + j];
                if cell == ' ' {
                    let letter = word[j];
                    let pl = match dir {
                        Direction::Horizontal => mk_placement(letter, position, k + j),
                        Direction::Vertical => mk_placement(letter, k + j, position),
                    };
                    batch.push(pl);
                    proof {
                        assert(pl == placement_at(word@, k as int, position as int, dir, k + j));
                        assert(batch_prefix(gline, word@, k as int, position as int, dir, j + 1)
                            =~= batch_prefix(
                            gline,
                            word@,
                            k as int,
                            position as int,
                            dir,
                            j as int,
                        ).push(pl));
                    }
                } else if cell == word[j] {
                    connected = true;
                    proof {
                        assert(batch_prefix(gline, word@, k as int, position as int, dir, j + 1)
                            =~= batch_prefix(gline, word@, k as int, position as int, dir, j as int));
                        assert(gline[k + j as int] != blank() && gline[k + j as int] == word@[j as int]);
                    }
                } else {
                    conflict = true;
                    proof {
                        assert(!compat(gline, word@, k as int)) by {
                            assert(compat(gline, word@, k as int) ==> gline[k + j as int]
                                == blank() || gline[k + j as int] == word@[j as int]);
                        }
                    }
                }
                j = j + 1;
            }
            if !conflict {
                let left_ok = k == 0 || line[k - 1] == ' ';
                let right_ok = k + word.len() == line.len() || line[k + word.len()] == ' ';
                let nonempty = batch.len() > 0;
                proof {
                    lemma_batch_prefix_props(
                        gline,
                        word@,
                        k as int,
                        position as int,
                        dir,
                        word@.len() as int,
                    );
                    crate::tiles::lemma_count_in_all(
                        gline.subrange(k as int, k + word@.len()),
                        blank(),
                    );
                    crate::tiles::lemma_count_in_le_len(
                        gline.subrange(k as int, k + word@.len()),
                        blank(),
                    );
                }
                if connected && nonempty && left_ok && right_ok {
                    proof {
                        let sub = gline.subrange(k as int, k + word@.len());
                        let t = choose|t: int|
                            0 <= t < word@.len() && gline[k + t] != blank() && gline[k + t]
                                == word@[t];
                        assert(sub[t] == gline[k + t]);
                        assert(blanks_in_span(gline, k as int, word@.len() as int) < word@.len());
                        assert(placement_ok(gline, word@, k as int));
                        // the pushed batch satisfies batch_wf on the board
                        assert forall|i: int| 0 <= i < batch@.len() implies {
                            let pl = #[trigger] batch@[i];
                            &&& pl.row < self@.len()
                            &&& pl.col < self@[pl.row as int].len()
                            &&& self@[pl.row as int][pl.col as int] == blank()
                            &&& pl.letter != blank()
                        } by {
                            assert(batch_elem_ok(
                                gline,
                                word@,
                                k as int,
                                position as int,
                                dir,
                                word@.len() as int,
                                batch@[i],
                            ));
                            let x = line_index(batch@[i], dir);
                            match dir {
                                Direction::Horizontal => {
                                    assert(gline[x] == self@[position as int][x]);
                                },
                                Direction::Vertical => {
                                    assert(gline[x] == self@[x][position as int]);
                                },
                            }
                        }
                        assert(batch_wf(batch@, self@));
                    }
                    proof {
                        assert(batch@ == batch_for(gline, word@, k as int, position as int, dir));
                    }
                    let ghost old_res = result@;
                    result.push(batch);
                    proof {
                        let n = old_res.len() as int;
                        assert(result@[n]@ == batch_for(
                            gline,
                            word@,
                            k as int,
                            position as int,
                            dir,
                        ));
                        assert(contains_batch(
                            result@,
                            gline,
                            word@,
                            k as int,
                            position as int,
                            dir,
                        ));
                        assert forall|kk: int|
                            0 <= kk < k + 1 && #[trigger] placement_ok(gline, word@, kk)
                                implies contains_batch(
                            result@,
                            gline,
                            word@,
                            kk,
                            position as int,
                            dir,
                        ) by {
                            if kk < k {
                                let i = choose|i: int|
                                    0 <= i < old_res.len() && (#[trigger] old_res[i])@
                                        == batch_for(gline, word@, kk, position as int, dir);
                                assert(result@[i] == old_res[i]);
                            }
                        }
                        assert(batch_is_sound(
                            batch@,
                            gline,
                            word@,
                            position as int,
                            dir,
                        )) by {
                            assert(placement_ok(gline, word@, k as int) && batch@ == batch_for(
                                gline,
                                word@,
                                k as int,
                                position as int,
                                dir,
                            ));
                        }
                        assert forall|i: int| 0 <= i < result@.len() implies batch_is_sound(
                            (#[trigger] result@[i])@,
                            gline,
                            word@,
                            position as int,
                            dir,
                        ) by {
                            if i < n {
                                assert(result@[i] == old_res[i]);
                                assert(batch_is_sound(
                                    old_res[i]@,
                                    gline,
                                    word@,
                                    position as int,
                                    dir,
                                ));
                            } else {
                                assert(result@[i]@ == batch@);
                            }
                        }
                        assert forall|i: int| 0 <= i < result@.len() implies batch_wf(
                            (#[trigger] result@[i])@,
                            self@,
                        ) by {
                            if i < n {
                                assert(result@[i] == old_res[i]);
                                assert(batch_wf(old_res[i]@, self@));
                            } else {
                                assert(result@[i]@ == batch@);
                            }
                        }
                    }
                } else {
                    proof {
                        if connected {
                            let t = choose|t: int|
                                0 <= t < word@.len() && gline[k + t] != blank() && gline[k + t]
                                    == word@[t];
                            assert(gline.subrange(k as int, k + word@.len())[t] == gline[k + t]);
                        } else {
                            // no conflict and nothing connected: the whole
                            // span is blank, so nothing anchors the word
                            assert forall|t: int|
                                0 <= t < word@.len() implies #[trigger] gline.subrange(
                                k as int,
                                k + word@.len(),
                            )[t] == blank() by {
                                assert(gline[k + t] == blank() || gline[k + t] == word@[t]);
                            }
                            assert(blanks_in_span(gline, k as int, word@.len() as int)
                                == word@.len());
                        }
                        if !nonempty {
                            assert(batch@.len() == 0);
                        }
                        assert(!placement_ok(gline, word@, k as int));
                    }
                }
            } else {
                proof {
                    assert(!placement_ok(gline, word@, k as int));
                }
            }
            k = k + 1;
        }
        proof {
            assert forall|kk: int| #[trigger] placement_ok(gline, word@, kk) implies contains_batch(
                result@,
                gline,
                word@,
                kk,
                position as int,
                dir,
            ) by {
                assert(0 <= kk < k);
            }
        }
        result
    }
}

} // verus!

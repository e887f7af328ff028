//! The validity checker: a board is acceptable when every maximal run
//! of two or more letters, across every row and every column, is a
//! dictionary word. Single letters are always acceptable: they are
//! tiles still waiting for a crossing word.
use vstd::prelude::*;

use crate::grid::{blank, col_of, is_bbox_at, occupied, Grid};

verus! {

/// `line[a .. b]` is a maximal run: letters throughout, blank-bounded.
pub open spec fn run_at(line: Seq<char>, a: int, b: int) -> bool {
    &&& 0 <= a < b <= line.len()
    &&& (forall|i: int| a <= i < b ==> line[i] != blank())
    &&& (a == 0 || line[a - 1] == blank())
    &&& (b == line.len() || line[b] == blank())
}

/// `w` is one of the dictionary's words.
pub open spec fn in_dict(dict: Seq<Seq<char>>, w: Seq<char>) -> bool {
    exists|i: int| 0 <= i < dict.len() && dict[i] == w
}

/// Every run of two or more letters in `line` is a dictionary word.
pub open spec fn line_valid(line: Seq<char>, dict: Seq<Seq<char>>) -> bool {
    forall|a: int, b: int|
        #[trigger] run_at(line, a, b) && b - a >= 2 ==> in_dict(dict, line.subrange(a, b))
}

/// Every run of two or more letters anywhere on the board, along a row
/// or down a column, is a dictionary word.
pub open spec fn board_valid(g: Seq<Seq<char>>, cols: int, dict: Seq<Seq<char>>) -> bool {
    &&& (forall|r: int| 0 <= r < g.len() ==> line_valid(#[trigger] g[r], dict))
    &&& (forall|c: int| 0 <= c < cols ==> line_valid(#[trigger] col_of(g, c), dict))
}

/// Compare two words letter for letter.
fn chars_eq(a: &[char], b: &[char]) -> (r: bool)
    ensures
        r == (a@ == b@),
{
    if a.len() != b.len() {
        return false;
    }
    let mut i: usize = 0;
    while i < a.len()
        invariant
            a@.len() == b@.len(),
            i <= a@.len(),
            forall|t: int| 0 <= t < i ==> a@[t] == b@[t],
        decreases a@.len() - i,
    {
        if a[i] != b[i] {
            return false;
        }
        i = i + 1;
    }
    proof {
        assert(a@ =~= b@);
    }
    true
}

/// Whether `run` is a word of the dictionary.
fn dict_contains(words: &Vec<Vec<char>>, run: &Vec<char>) -> (r: bool)
    ensures
        r == in_dict(words.deep_view(), run@),
{
    let mut t: usize = 0;
    while t < words.len()
        invariant
            t <= words@.len(),
            forall|i: int| 0 <= i < t ==> #[trigger] words.deep_view()[i] != run@,
        decreases words@.len() - t,
    {
        if chars_eq(words[t].as_slice(), run.as_slice()) {
            proof {
                assert(words.deep_view()[t as int] =~= words@[t as int]@);
            }
            return true;
        }
        proof {
            assert(words.deep_view()[t as int] =~= words@[t as int]@);
        }
        t = t + 1;
    }
    false
}

/// Every maximal run of two or more letters in `line` must be a word.
fn line_check(line: &Vec<char>, words: &Vec<Vec<char>>) -> (r: bool)
    ensures
        r == line_valid(line@, words.deep_view()),
{
    let n = line.len();
    let mut i: usize = 0;
    while i < n
        invariant
            n == line@.len(),
            i <= n,
            i == 0 || i == n || line@[i - 1] == blank() || line@[i as int] == blank(),
            forall|a: int, b: int|
                #[trigger] run_at(line@, a, b) && b <= i && b - a >= 2 ==> in_dict(
                    words.deep_view(),
                    line@.subrange(a, b),
                ),
        decreases n - i,
    {
        if line[i] == ' ' {
            proof {
                assert forall|a: int, b: int|
                    #[trigger] run_at(line@, a, b) && b <= i + 1 && b - a >= 2 implies in_dict(
                    words.deep_view(),
                    line@.subrange(a, b),
                ) by {
                    if b == i + 1 {
                        assert(line@[b - 1] != blank());
                    }
                }
            }
            i = i + 1;
        } else {
            // scan to the end of this run, collecting its letters
            let start = i;
            let mut run: Vec<char> = Vec::new();
            let mut j: usize = i;
            while j < n && line[j] != ' '
                invariant
                    n == line@.len(),
                    start <= j <= n,
                    start == i,
                    i < n,
                    forall|t: int| start <= t < j ==> line@[t] != blank(),
                    run@ == line@.subrange(start as int, j as int),
                decreases n - j,
            {
                run.push(line[j]);
                proof {
                    assert(run@ =~= line@.subrange(start as int, j + 1));
                }
                j = j + 1;
            }
            proof {
                assert(line@[start as int] != blank());
                assert(start == 0 || line@[start - 1] == blank());
                assert(j == n || line@[j as int] == blank());
                assert(run_at(line@, start as int, j as int));
            }
            if run.len() >= 2 {
                if !dict_contains(words, &run) {
                    proof {
                        assert(!line_valid(line@, words.deep_view())) by {
                            assert(run_at(line@, start as int, j as int) && j - start >= 2
                                && !in_dict(
                                words.deep_view(),
                                line@.subrange(start as int, j as int),
                            ));
                        }
                    }
                    return false;
                }
            }
            proof {
                assert forall|a: int, b: int|
                    #[trigger] run_at(line@, a, b) && b <= j && b - a >= 2 implies in_dict(
                    words.deep_view(),
                    line@.subrange(a, b),
                ) by {
                    if b > start {
                        // a run overlapping this one must be this one
                        assert(b == j) by {
                            if b < j {
                                assert(line@[b] != blank());
                            }
                        }
                        assert(a == start) by {
                            if a > start {
                                assert(line@[a - 1] != blank());
                            }
                            if a < start {
                                assert(a <= start - 1 < b);
                                assert(line@[start - 1] != blank());
                            }
                        }
                    }
                }
            }
            i = j;
        }
    }
    proof {
        assert forall|a: int, b: int|
            #[trigger] run_at(line@, a, b) && b - a >= 2 implies in_dict(
            words.deep_view(),
            line@.subrange(a, b),
        ) by {
            assert(b <= i);
        }
    }
    true
}

/// A line with no letters has no runs at all.
pub proof fn lemma_blank_line_valid(line: Seq<char>, dict: Seq<Seq<char>>)
    requires
        forall|i: int| 0 <= i < line.len() ==> line[i] == blank(),
    ensures
        line_valid(line, dict),
{
    assert forall|a: int, b: int|
        #[trigger] run_at(line, a, b) && b - a >= 2 implies in_dict(
        dict,
        line.subrange(a, b),
    ) by {
        assert(line[a] != blank());
    }
}

/// A board with no letters passes the checker against any dictionary.
pub proof fn lemma_blank_board_valid(g: Seq<Seq<char>>, cols: int, dict: Seq<Seq<char>>)
    requires
        forall|r: int, c: int| 0 <= r < g.len() && 0 <= c < g[r].len() ==> g[r][c] == blank(),
        forall|r: int| 0 <= r < g.len() ==> cols <= (#[trigger] g[r]).len(),
    ensures
        board_valid(g, cols, dict),
{
    assert forall|r: int| 0 <= r < g.len() implies line_valid(#[trigger] g[r], dict) by {
        lemma_blank_line_valid(g[r], dict);
    }
    assert forall|c: int| 0 <= c < cols implies line_valid(#[trigger] col_of(g, c), dict) by {
        assert forall|i: int| 0 <= i < col_of(g, c).len() implies col_of(g, c)[i] == blank() by {
            assert(g[i][c] == blank());
        }
        lemma_blank_line_valid(col_of(g, c), dict);
    }
}

impl Grid {
    /// Whether the whole board is acceptable: every maximal run of two
    /// or more letters, in every row and every column, is a word.
    pub fn valid_bananagrams(&self, words: &Vec<Vec<char>>) -> (r: bool)
        requires
            self.wf(),
        ensures
            r == board_valid(self@, self.spec_cols() as int, words.deep_view()),
    {
        let ghost dict = words.deep_view();
        match self.bounding_box() {
            None => {
                proof {
                    assert forall|r: int| 0 <= r < self@.len() implies line_valid(
                        #[trigger] self@[r],
                        dict,
                    ) by {
                        assert forall|i: int| 0 <= i < self@[r].len() implies self@[r][i]
                            == blank() by {
                            if self@[r][i] != blank() {
                                assert(occupied(self@, r, i));
                            }
                        }
                        lemma_blank_line_valid(self@[r], dict);
                    }
                    assert forall|c: int| 0 <= c < self.spec_cols() implies line_valid(
                        #[trigger] col_of(self@, c),
                        dict,
                    ) by {
                        assert forall|i: int| 0 <= i < col_of(self@, c).len() implies col_of(
                            self@,
                            c,
                        )[i] == blank() by {
                            if self@[i][c] != blank() {
                                assert(occupied(self@, i, c));
                            }
                        }
                        lemma_blank_line_valid(col_of(self@, c), dict);
                    }
                }
                true
            },
            Some(bb) => {
                let mut r: usize = bb.min_row;
                while r <= bb.max_row
                    invariant
                        self.wf(),
                        dict == words.deep_view(),
                        is_bbox_at(
                            self@,
                            (
                                bb.min_row as int,
                                bb.max_row as int,
                                bb.min_col as int,
                                bb.max_col as int,
                            ),
                        ),
                        bb.min_row <= r <= bb.max_row + 1,
                        bb.max_row < self.spec_rows(),
                        forall|rr: int|
                            bb.min_row <= rr < r ==> line_valid(#[trigger] self@[rr], dict),
                    decreases bb.max_row + 1 - r,
                {
                    let line = self.words_at(r, crate::grid::Direction::Horizontal);
                    if !line_check(&line, words) {
                        return false;
                    }
                    r = r + 1;
                }
                let mut c: usize = bb.min_col;
                while c <= bb.max_col
                    invariant
                        self.wf(),
                        dict == words.deep_view(),
                        is_bbox_at(
                            self@,
                            (
                                bb.min_row as int,
                                bb.max_row as int,
                                bb.min_col as int,
                                bb.max_col as int,
                            ),
                        ),
                        bb.min_col <= c <= bb.max_col + 1,
                        bb.max_col < self.spec_cols(),
                        forall|rr: int|
                            bb.min_row <= rr <= bb.max_row ==> line_valid(#[trigger] self@[rr], dict),
                        forall|cc: int|
                            bb.min_col <= cc < c ==> line_valid(#[trigger] col_of(self@, cc), dict),
                    decreases bb.max_col + 1 - c,
                {
                    let line = self.words_at(c, crate::grid::Direction::Vertical);
                    if !line_check(&line, words) {
                        return false;
                    }
                    c = c + 1;
                }
                proof {
                    assert forall|rr: int| 0 <= rr < self@.len() implies line_valid(
                        #[trigger] self@[rr],
                        dict,
                    ) by {
                        if rr < bb.min_row || rr > bb.max_row {
                            assert forall|i: int| 0 <= i < self@[rr].len() implies self@[rr][i]
                                == blank() by {
                                if self@[rr][i] != blank() {
                                    assert(occupied(self@, rr, i));
                                }
                            }
                            lemma_blank_line_valid(self@[rr], dict);
                        }
                    }
                    assert forall|cc: int| 0 <= cc < self.spec_cols() implies line_valid(
                        #[trigger] col_of(self@, cc),
                        dict,
                    ) by {
                        if cc < bb.min_col || cc > bb.max_col {
                            assert forall|i: int| 0 <= i < col_of(self@, cc).len() implies col_of(
                                self@,
                                cc,
                            )[i] == blank() by {
                                if self@[i][cc] != blank() {
                                    assert(occupied(self@, i, cc));
                                }
                            }
                            lemma_blank_line_valid(col_of(self@, cc), dict);
                        }
                    }
                }
                true
            },
        }
    }
}

} // verus!

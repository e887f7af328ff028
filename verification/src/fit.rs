//! The word fit filter: given a line of the board and the remaining tile
//! pool, decide whether a dictionary word could legally be inserted
//! somewhere in that line.
//!
//! A word fits a line when (1) its letters can be drawn from the pool
//! together with the letters already on the line, and (2) some overlay
//! position neither conflicts with a placed letter nor merges the word
//! into a longer run: after the overlay, the word must stand as a whole
//! token of the line, blank-bounded on both sides.
use vstd::prelude::*;

use crate::grid::{blank, line_of, Direction, Grid};
use crate::tiles::{can_be_made_with, can_spell};

verus! {

/// `n` blank cells.
pub open spec fn blanks(n: int) -> Seq<char> {
    Seq::new(n as nat, |i: int| blank())
}

/// `s` without its leading blanks.
pub open spec fn trim_front(s: Seq<char>) -> Seq<char>
    decreases s.len(),
{
    if s.len() > 0 && s.first() == blank() {
        trim_front(s.drop_first())
    } else {
        s
    }
}

/// `s` without its trailing blanks.
pub open spec fn trim_back(s: Seq<char>) -> Seq<char>
    decreases s.len(),
{
    if s.len() > 0 && s.last() == blank() {
        trim_back(s.drop_last())
    } else {
        s
    }
}

/// `s` without leading and trailing blanks.
pub open spec fn trimmed(s: Seq<char>) -> Seq<char> {
    trim_back(trim_front(s))
}

/// The line as the filter scans it: trimmed, then padded on both sides
/// with one blank less than the word is long.
pub open spec fn padded_line(row: Seq<char>, pad: int) -> Seq<char> {
    blanks(pad) + trimmed(row) + blanks(pad)
}

/// The letters of `s`, blanks dropped.
pub open spec fn non_blanks(s: Seq<char>) -> Seq<char>
    decreases s.len(),
{
    if s.len() == 0 {
        Seq::empty()
    } else if s.last() == blank() {
        non_blanks(s.drop_last())
    } else {
        non_blanks(s.drop_last()).push(s.last())
    }
}

/// `word` laid over `line` at `k` conflicts with no placed letter.
pub open spec fn compat(line: Seq<char>, word: Seq<char>, k: int) -> bool {
    forall|j: int|
        0 <= j < word.len() ==> line[k + j] == blank() || line[k + j] == #[trigger] word[j]
}

/// `line` with `word` written over positions `k ..`.
pub open spec fn overlay(line: Seq<char>, word: Seq<char>, k: int) -> Seq<char> {
    Seq::new(
        line.len(),
        |i: int|
            if k <= i < k + word.len() {
                word[i - k]
            } else {
                line[i]
            },
    )
}

/// `word` occupies `line[k ..]` exactly, blank-bounded on both sides.
pub open spec fn token_at(line: Seq<char>, word: Seq<char>, k: int) -> bool {
    &&& 0 <= k
    &&& k + word.len() <= line.len()
    &&& (forall|j: int| 0 <= j < word.len() ==> line[k + j] == #[trigger] word[j])
    &&& (k == 0 || line[k - 1] == blank())
    &&& (k + word.len() == line.len() || line[k + word.len()] == blank())
}

/// `word` stands somewhere in `line` as a whole token: a maximal
/// blank-free run equal to the word.
pub open spec fn has_token(line: Seq<char>, word: Seq<char>) -> bool {
    &&& word.len() > 0
    &&& (forall|j: int| 0 <= j < word.len() ==> word[j] != blank())
    &&& exists|k: int| token_at(line, word, k)
}

/// The fit filter's answer: the word is spellable from the pool plus
/// the line's letters, and some non-conflicting overlay leaves it
/// standing as a whole token.
pub open spec fn fits_in_line(word: Seq<char>, tiles: Seq<char>, row: Seq<char>) -> bool {
    let padded = padded_line(row, word.len() - 1);
    &&& can_spell(word, tiles + non_blanks(row))
    &&& exists|k: int|
        0 <= k && k + word.len() <= padded.len() && #[trigger] compat(padded, word, k)
            && has_token(overlay(padded, word, k), word)
}

proof fn lemma_trim_front_skip(s: Seq<char>, a: int)
    requires
        0 <= a <= s.len(),
        forall|i: int| 0 <= i < a ==> s[i] == blank(),
        a < s.len() ==> s[a] != blank(),
    ensures
        trim_front(s) == s.skip(a),
    decreases a,
{
    if a == 0 {
        assert(s.skip(0) =~= s);
    } else {
        assert(s.first() == blank());
        assert(s.drop_first() =~= s.skip(1));
        lemma_trim_front_skip(s.skip(1), a - 1);
        assert(s.skip(1).skip(a - 1) =~= s.skip(a));
    }
}

proof fn lemma_trim_back_take(s: Seq<char>, b: int)
    requires
        0 <= b <= s.len(),
        forall|i: int| b <= i < s.len() ==> s[i] == blank(),
        b > 0 ==> s[b - 1] != blank(),
    ensures
        trim_back(s) == s.take(b),
    decreases s.len(),
{
    if s.len() == 0 {
        assert(s.take(0) =~= s);
    } else if s.last() == blank() {
        assert(b < s.len());
        lemma_trim_back_take(s.drop_last(), b);
        assert(s.drop_last().take(b) =~= s.take(b));
    } else {
        assert(b == s.len());
        assert(s.take(b) =~= s);
    }
}

/// Letters already on the line count toward what the word may use.
fn pool_with_line(tiles: &[char], row: &[char]) -> (v: Vec<char>)
    ensures
        v@ == tiles@ + non_blanks(row@),
{
    let mut v: Vec<char> = Vec::new();
    let mut i: usize = 0;
    while i < tiles.len()
        invariant
            i <= tiles@.len(),
            v@ == tiles@.take(i as int),
        decreases tiles@.len() - i,
    {
        v.push(tiles[i]);
        proof {
            assert(v@ =~= tiles@.take(i + 1));
        }
        i = i + 1;
    }
    proof {
        assert(tiles@.take(tiles@.len() as int) =~= tiles@);
    }
    let mut j: usize = 0;
    while j < row.len()
        invariant
            j <= row@.len(),
            v@ == tiles@ + non_blanks(row@.take(j as int)),
        decreases row@.len() - j,
    {
        proof {
            assert(row@.take(j + 1).drop_last() =~= row@.take(j as int));
            assert(row@.take(j + 1).last() == row@[j as int]);
        }
        if row[j] != ' ' {
            v.push(row[j]);
            proof {
                assert(v@ =~= tiles@ + non_blanks(row@.take(j + 1)));
            }
        }
        j = j + 1;
    }
    proof {
        assert(row@.take(row@.len() as int) =~= row@);
    }
    v
}

/// Whether `word` matches `line` letter for letter starting at `k`.
pub open spec fn span_matches(line: Seq<char>, word: Seq<char>, k: int) -> bool {
    forall|j: int| 0 <= j < word.len() ==> line[k + j] == #[trigger] word[j]
}

fn span_check(line: &[char], word: &[char], k: usize) -> (r: bool)
    requires
        k + word@.len() <= line@.len(),
    ensures
        r == span_matches(line@, word@, k as int),
{
    let n = line.len();
    let mut j: usize = 0;
    while j < word.len()
        invariant
            j <= word@.len(),
            k + word@.len() <= line@.len(),
            line@.len() <= usize::MAX,
            forall|i: int| 0 <= i < j ==> line@[k + i] == #[trigger] word@[i],
        decreases word@.len() - j,
    {
        if line[k + j] != word[j] {
            assert(!span_matches(line@, word@, k as int)) by {
                assert(span_matches(line@, word@, k as int)
                    ==> line@[k + j] == word@[j as int]);
            }
            return false;
        }
        j = j + 1;
    }
    true
}

fn compat_check(line: &[char], word: &[char], k: usize) -> (r: bool)
    requires
        k + word@.len() <= line@.len(),
    ensures
        r == compat(line@, word@, k as int),
{
    let n = line.len();
    let mut j: usize = 0;
    while j < word.len()
        invariant
            j <= word@.len(),
            k + word@.len() <= line@.len(),
            line@.len() <= usize::MAX,
            forall|i: int|
                0 <= i < j ==> line@[k + i] == blank() || line@[k + i] == #[trigger] word@[i],
        decreases word@.len() - j,
    {
        if line[k + j] != ' ' && line[k + j] != word[j] {
            assert(!compat(line@, word@, k as int)) by {
                assert(compat(line@, word@, k as int) ==> line@[k + j] == blank() || line@[k + j]
                    == word@[j as int]);
            }
            return false;
        }
        j = j + 1;
    }
    true
}

fn token_check(line: &[char], word: &[char]) -> (r: bool)
    ensures
        r == has_token(line@, word@),
{
    if word.len() == 0 {
        return false;
    }
    let mut j: usize = 0;
    while j < word.len()
        invariant
            j <= word@.len(),
            forall|i: int| 0 <= i < j ==> #[trigger] word@[i] != blank(),
        decreases word@.len() - j,
    {
        if word[j] == ' ' {
            assert(!has_token(line@, word@)) by {
                assert(has_token(line@, word@) ==> word@[j as int] != blank());
            }
            return false;
        }
        j = j + 1;
    }
    if word.len() > line.len() {
        return false;
    }
    let last = line.len() - word.len();
    let mut k: usize = 0;
    while k <= last
        invariant
            word@.len() >= 1,
            word@.len() <= line@.len(),
            line@.len() <= usize::MAX,
            last == line@.len() - word@.len(),
            k <= last + 1,
            forall|i: int| 0 <= i < word@.len() ==> #[trigger] word@[i] != blank(),
            forall|kk: int| 0 <= kk < k ==> !token_at(line@, word@, kk),
        decreases last + 1 - k,
    {
        if span_check(line, word, k) {
            let left_ok = k == 0 || line[k - 1] == ' ';
            let right_ok = k + word.len() == line.len() || line[k + word.len()] == ' ';
            if left_ok && right_ok {
                assert(token_at(line@, word@, k as int));
                return true;
            }
        }
        k = k + 1;
    }
    assert forall|kk: int| !token_at(line@, word@, kk) by {
        if 0 <= kk && kk + word@.len() <= line@.len() {
            assert(kk < k);
        }
    }
    false
}

fn overlay_vec(line: &[char], word: &[char], k: usize) -> (v: Vec<char>)
    requires
        k + word@.len() <= line@.len(),
    ensures
        v@ == overlay(line@, word@, k as int),
{
    let mut v: Vec<char> = Vec::new();
    let mut i: usize = 0;
    while i < line.len()
        invariant
            i <= line@.len(),
            k + word@.len() <= line@.len(),
            v@.len() == i,
            forall|x: int|
                0 <= x < i ==> v@[x] == (if k <= x < k + word@.len() {
                    word@[x - k]
                } else {
                    line@[x]
                }),
        decreases line@.len() - i,
    {
        if k <= i && i < k + word.len() {
            v.push(word[i - k]);
        } else {
            v.push(line[i]);
        }
        i = i + 1;
    }
    proof {
        assert(v@ =~= overlay(line@, word@, k as int));
    }
    v
}

/// Can this word be assembled from these tiles, given that it must also
/// be placed somewhere in `row` without conflict, standing as a whole
/// token of the line?
#[verifier::rlimit(50)]
pub fn fits_in_row(word: &[char], tiles: &[char], row: &[char]) -> (r: bool)
    requires
        word@.len() >= 1,
        row@.len() + 2 * word@.len() <= usize::MAX,
    ensures
        r == fits_in_line(word@, tiles@, row@),
{
    let all_tiles = pool_with_line(tiles, row);
    if !can_be_made_with(word, all_tiles.as_slice()) {
        return false;
    }
    // trim the row, then pad with one blank less than the word is long
    let mut a: usize = 0;
    while a < row.len() && row[a] == ' '
        invariant
            a <= row@.len(),
            forall|i: int| 0 <= i < a ==> row@[i] == blank(),
        decreases row@.len() - a,
    {
        a = a + 1;
    }
    let mut b: usize = row.len();
    while b > a && row[b - 1] == ' '
        invariant
            a <= b <= row@.len(),
            forall|i: int| b <= i < row@.len() ==> row@[i] == blank(),
        decreases b,
    {
        b = b - 1;
    }
    proof {
        lemma_trim_front_skip(row@, a as int);
        lemma_trim_back_take(row@.skip(a as int), b - a);
        assert(trimmed(row@) =~= row@.subrange(a as int, b as int));
    }
    let pad = word.len() - 1;
    let mut padded: Vec<char> = Vec::new();
    let mut i: usize = 0;
    while i < pad
        invariant
            i <= pad,
            padded@.len() == i,
            forall|x: int| 0 <= x < i ==> padded@[x] == blank(),
        decreases pad - i,
    {
        padded.push(' ');
        i = i + 1;
    }
    let mut i: usize = a;
    while i < b
        invariant
            a <= i <= b <= row@.len(),
            padded@.len() == pad + i - a,
            forall|x: int| 0 <= x < pad ==> padded@[x] == blank(),
            forall|x: int| pad <= x < pad + i - a ==> padded@[x] == row@[x - pad + a],
        decreases b - i,
    {
        padded.push(row[i]);
        i = i + 1;
    }
    let mut i: usize = 0;
    while i < pad
        invariant
            i <= pad,
            a <= b <= row@.len(),
            padded@.len() == pad + (b - a) + i,
            forall|x: int| 0 <= x < pad ==> padded@[x] == blank(),
            forall|x: int| pad <= x < pad + b - a ==> padded@[x] == row@[x - pad + a],
            forall|x: int| pad + b - a <= x < pad + (b - a) + i ==> padded@[x] == blank(),
        decreases pad - i,
    {
        padded.push(' ');
        i = i + 1;
    }
    proof {
        assert(padded@ =~= padded_line(row@, word@.len() - 1));
    }
    if padded.len() < word.len() {
        assert(!fits_in_line(word@, tiles@, row@));
        return false;
    }
    let last = padded.len() - word.len();
    let mut start: usize = 0;
    while start <= last
        invariant
            word@.len() >= 1,
            can_spell(word@, tiles@ + non_blanks(row@)),
            padded@ == padded_line(row@, word@.len() - 1),
            padded@.len() <= usize::MAX,
            last == padded@.len() - word@.len(),
            word@.len() <= padded@.len(),
            start <= last + 1,
            forall|k: int|
                0 <= k < start ==> !(#[trigger] compat(padded@, word@, k) && has_token(
                    overlay(padded@, word@, k),
                    word@,
                )),
        decreases last + 1 - start,
    {
        if compat_check(padded.as_slice(), word, start) {
            let overlaid = overlay_vec(padded.as_slice(), word, start);
            if token_check(overlaid.as_slice(), word) {
                assert(compat(padded@, word@, start as int) && has_token(
                    overlay(padded@, word@, start as int),
                    word@,
                ));
                return true;
            }
        }
        start = start + 1;
    }
    assert(!fits_in_line(word@, tiles@, row@)) by {
        if fits_in_line(word@, tiles@, row@) {
            let k = choose|k: int|
                0 <= k && k + word@.len() <= padded_line(row@, word@.len() - 1).len()
                    && #[trigger] compat(padded_line(row@, word@.len() - 1), word@, k)
                    && has_token(overlay(padded_line(row@, word@.len() - 1), word@, k), word@);
            assert(k < start);
        }
    }
    false
}

impl Grid {
    /// Whether `word` fits somewhere in the line at `position` along
    /// `dir`, drawing missing letters from `available_chars`.
    pub fn fits_in_row(
        &self,
        word: &[char],
        position: usize,
        dir: Direction,
        available_chars: &[char],
    ) -> (r: bool)
        requires
            self.wf(),
            word@.len() >= 1,
            dir == Direction::Horizontal ==> position < self.spec_rows(),
            dir == Direction::Vertical ==> position < self.spec_cols(),
            self.spec_rows() + self.spec_cols() + 2 * word@.len() <= usize::MAX,
        ensures
            r == fits_in_line(word@, available_chars@, line_of(self@, position as int, dir)),
    {
        let line = self.words_at(position, dir);
        fits_in_row(word, available_chars, line.as_slice())
    }
}

} // verus!

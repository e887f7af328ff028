//! Canonical, transpose-invariant fingerprints of boards.
//!
//! The occupied region of a board is digested twice — once in row-major
//! and once in column-major order — with std's `DefaultHasher`, and the
//! two digests are combined as an unordered pair. A board and the
//! transpose of its occupied region therefore fingerprint alike, while
//! the pair keeps both digests intact (no lossy mixing of the two).
use vstd::prelude::*;

use crate::grid::{
    bbox_of, has_letter, is_bbox_at, lemma_bbox_exists, lemma_bbox_unique, occupied, Grid,
};
use std::collections::hash_map::DefaultHasher;
use core::hash::Hasher;
use vstd::std_specs::hash::DefaultHasherAdditionalSpecFns;

verus! {

/// The bytes one cell feeds to the hasher.
pub open spec fn char_bytes(c: char) -> Seq<u8> {
    vstd::bytes::spec_u32_to_le_bytes(c as u32)
}

/// The write trace a sequence of cells leaves in the hasher.
pub open spec fn bytes_of_chars(cs: Seq<char>) -> Seq<Seq<u8>> {
    cs.map_values(|c: char| char_bytes(c))
}

/// Digest of a sequence of cells: what std's `DefaultHasher` returns
/// after one write per cell.
pub open spec fn chars_digest(cs: Seq<char>) -> u64 {
    DefaultHasher::spec_finish(bytes_of_chars(cs))
}

/// Two digests combined as an unordered pair: the smaller in the high
/// half, the larger in the low half.
pub open spec fn combine_digests(a: u64, b: u64) -> int {
    if a <= b {
        (a as u128) * 0x1_0000_0000_0000_0000 + (b as u128)
    } else {
        (b as u128) * 0x1_0000_0000_0000_0000 + (a as u128)
    }
}

/// The occupied region of a board: its bounding-box rows restricted to
/// the bounding-box columns; empty for a blank board.
pub open spec fn region_of(g: Seq<Seq<char>>) -> Seq<Seq<char>> {
    if !has_letter(g) {
        Seq::empty()
    } else {
        let t = bbox_of(g);
        Seq::new((t.1 - t.0 + 1) as nat, |i: int| g[t.0 + i].subrange(t.2, t.3 + 1))
    }
}

/// Rows and columns of a rectangular block swapped.
pub open spec fn transpose_of(m: Seq<Seq<char>>) -> Seq<Seq<char>> {
    if m.len() == 0 {
        Seq::empty()
    } else {
        Seq::new(m[0].len() as nat, |c: int| Seq::new(m.len(), |r: int| m[r][c]))
    }
}

/// Canonical fingerprint of a board's occupied content.
pub open spec fn spec_hash(g: Seq<Seq<char>>) -> int {
    combine_digests(
        chars_digest(region_of(g).flatten()),
        chars_digest(transpose_of(region_of(g)).flatten()),
    )
}

/// Every row of `g` is as long as its first.
pub open spec fn is_rect(g: Seq<Seq<char>>) -> bool {
    forall|r: int| 0 <= r < g.len() ==> (#[trigger] g[r]).len() == g[0].len()
}

/// Digest the cells of `line` in order.
fn digest_line(line: &Vec<char>) -> (d: u64)
    ensures
        d == chars_digest(line@),
{
    let mut h = DefaultHasher::new();
    let mut i: usize = 0;
    while i < line.len()
        invariant
            i <= line@.len(),
            h@ == bytes_of_chars(line@.take(i as int)),
        decreases line@.len() - i,
    {
        let bytes = vstd::bytes::u32_to_le_bytes(line[i] as u32);
        h.write(bytes.as_slice());
        proof {
            assert(bytes_of_chars(line@.take(i + 1)) =~= bytes_of_chars(
                line@.take(i as int),
            ).push(char_bytes(line@[i as int])));
        }
        i = i + 1;
    }
    proof {
        assert(line@.take(line@.len() as int) =~= line@);
    }
    h.finish()
}

impl Grid {
    /// The canonical fingerprint of this board.
    pub fn hash(&self) -> (h: u128)
        requires
            self.wf(),
        ensures
            h == spec_hash(self@),
    {
        let ghost reg = region_of(self@);
        let mut rm: Vec<char> = Vec::new();
        let mut cm: Vec<char> = Vec::new();
        match self.bounding_box() {
            None => {
                proof {
                    assert(reg =~= Seq::<Seq<char>>::empty());
                    assert(transpose_of(reg) =~= Seq::<Seq<char>>::empty());
                    assert(reg.flatten() =~= Seq::<char>::empty());
                    assert(rm@ =~= reg.flatten());
                    assert(cm@ =~= transpose_of(reg).flatten());
                }
            },
            Some(b) => {
                proof {
                    broadcast use Seq::lemma_flatten_push;

                    let tb = (
                        b.min_row as int,
                        b.max_row as int,
                        b.min_col as int,
                        b.max_col as int,
                    );
                    assert(is_bbox_at(self@, bbox_of(self@))) by {
                        assert(is_bbox_at(self@, tb));
                    }
                    let wc = choose|c: int|
                        0 <= c < self@[tb.0].len() && occupied(self@, tb.0, c);
                    assert(has_letter(self@));
                    lemma_bbox_unique(self@, tb, bbox_of(self@));
                }
                let height = b.max_row - b.min_row + 1;
                let width = b.max_col - b.min_col + 1;
                proof {
                    assert(reg.len() == height);
                    assert forall|r: int| 0 <= r < height implies (#[trigger] reg[r]).len()
                        == width && reg[r] == self@[b.min_row + r].subrange(
                        b.min_col as int,
                        b.max_col + 1,
                    ) by {
                        let e4 = choose|r: int|
                            0 <= r < self@.len() && b.max_col < self@[r].len() && occupied(
                                self@,
                                r,
                                b.max_col as int,
                            );
                        assert(self@[b.min_row + r].len() == self.spec_cols());
                    }
                }
                let mut i: usize = 0;
                while i < height
                    invariant
                        self.wf(),
                        reg.len() == height,
                        b.min_row + height <= self.spec_rows(),
                        b.min_col + width <= self.spec_cols(),
                        forall|r: int|
                            0 <= r < height ==> (#[trigger] reg[r]).len() == width && reg[r]
                                == self@[b.min_row + r].subrange(b.min_col as int, b.max_col + 1),
                        width == b.max_col + 1 - b.min_col,
                        i <= height,
                        rm@ == reg.take(i as int).flatten(),
                    decreases height - i,
                {
                    let mut j: usize = 0;
                    while j < width
                        invariant
                            self.wf(),
                            reg.len() == height,
                            b.min_row + height <= self.spec_rows(),
                            b.min_col + width <= self.spec_cols(),
                            forall|r: int|
                                0 <= r < height ==> (#[trigger] reg[r]).len() == width && reg[r]
                                    == self@[b.min_row + r].subrange(
                                    b.min_col as int,
                                    b.max_col + 1,
                                ),
                            width == b.max_col + 1 - b.min_col,
                            i < height,
                            j <= width,
                            rm@ == reg.take(i as int).flatten() + reg[i as int].take(j as int),
                        decreases width - j,
                    {
                        rm.push(self.get(b.min_row + i, b.min_col + j));
                        proof {
                            assert(reg[i as int].take(j + 1) =~= reg[i as int].take(
                                j as int,
                            ).push(reg[i as int][j as int]));
                            assert(rm@ =~= reg.take(i as int).flatten() + reg[i as int].take(
                                j + 1,
                            ));
                        }
                        j = j + 1;
                    }
                    proof {
                        broadcast use Seq::lemma_flatten_push;

                        assert(reg[i as int].take(width as int) =~= reg[i as int]);
                        assert(reg.take(i + 1) =~= reg.take(i as int).push(reg[i as int]));
                        assert(reg.take(i + 1).flatten() == reg.take(i as int).push(
                            reg[i as int],
                        ).flatten());
                        assert(rm@ =~= reg.take(i + 1).flatten());
                    }
                    i = i + 1;
                }
                proof {
                    assert(reg.take(reg.len() as int) =~= reg);
                }
                let ghost trans = transpose_of(reg);
                proof {
                    assert(trans.len() == width);
                    assert(reg[0].len() == width);
                    assert forall|c: int| 0 <= c < width implies (#[trigger] trans[c]).len()
                        == height && forall|r: int|
                        0 <= r < height ==> trans[c][r] == reg[r][c] by {}
                }
                let mut j: usize = 0;
                while j < width
                    invariant
                        self.wf(),
                        reg.len() == height,
                        trans == transpose_of(reg),
                        trans.len() == width,
                        width == b.max_col + 1 - b.min_col,
                        height == b.max_row + 1 - b.min_row,
                        b.min_row + height <= self.spec_rows(),
                        b.min_col + width <= self.spec_cols(),
                        forall|r: int|
                            0 <= r < height ==> (#[trigger] reg[r]).len() == width && reg[r]
                                == self@[b.min_row + r].subrange(b.min_col as int, b.max_col + 1),
                        forall|c: int|
                            0 <= c < width ==> (#[trigger] trans[c]).len() == height,
                        forall|c: int, r: int|
                            0 <= c < width && 0 <= r < height ==> trans[c][r] == reg[r][c],
                        j <= width,
                        cm@ == trans.take(j as int).flatten(),
                    decreases width - j,
                {
                    let mut i: usize = 0;
                    while i < height
                        invariant
                            self.wf(),
                            reg.len() == height,
                            trans.len() == width,
                            width == b.max_col + 1 - b.min_col,
                            height == b.max_row + 1 - b.min_row,
                            b.min_row + height <= self.spec_rows(),
                            b.min_col + width <= self.spec_cols(),
                            forall|r: int|
                                0 <= r < height ==> (#[trigger] reg[r]).len() == width && reg[r]
                                    == self@[b.min_row + r].subrange(
                                    b.min_col as int,
                                    b.max_col + 1,
                                ),
                            forall|c: int|
                                0 <= c < width ==> (#[trigger] trans[c]).len() == height,
                            forall|c: int, r: int|
                                0 <= c < width && 0 <= r < height ==> trans[c][r] == reg[r][c],
                            j < width,
                            i <= height,
                            cm@ == trans.take(j as int).flatten() + trans[j as int].take(i as int),
                        decreases height - i,
                    {
                        cm.push(self.get(b.min_row + i, b.min_col + j));
                        proof {
                            assert(reg[i as int] == self@[b.min_row + i].subrange(
                                b.min_col as int,
                                b.max_col + 1,
                            ));
                            assert(self@[b.min_row + i].len() == self.spec_cols());
                            assert(self@[b.min_row + i].subrange(b.min_col as int, b.max_col + 1)[
                                j as int] == self@[b.min_row + i][b.min_col + j]);
                            assert(reg[i as int][j as int] == self@[b.min_row + i][b.min_col + j]);
                            assert(trans[j as int][i as int] == reg[i as int][j as int]);
                            assert(trans[j as int].take(i + 1) =~= trans[j as int].take(
                                i as int,
                            ).push(trans[j as int][i as int]));
                            assert(cm@ =~= trans.take(j as int).flatten() + trans[j as int].take(
                                i + 1,
                            ));
                        }
                        i = i + 1;
                    }
                    proof {
                        broadcast use Seq::lemma_flatten_push;

                        assert(trans[j as int].take(height as int) =~= trans[j as int]);
                        assert(trans.take(j + 1) =~= trans.take(j as int).push(trans[j as int]));
                        assert(trans.take(j + 1).flatten() == trans.take(j as int).push(
                            trans[j as int],
                        ).flatten());
                        assert(cm@ =~= trans.take(j + 1).flatten());
                    }
                    j = j + 1;
                }
                proof {
                    assert(trans.take(trans.len() as int) =~= trans);
                }
            },
        }
        let d1 = digest_line(&rm);
        let d2 = digest_line(&cm);
        if d1 <= d2 {
            (d1 as u128) * 0x1_0000_0000_0000_0000u128 + (d2 as u128)
        } else {
            (d2 as u128) * 0x1_0000_0000_0000_0000u128 + (d1 as u128)
        }
    }
}

proof fn lemma_transpose_involutive(m: Seq<Seq<char>>)
    requires
        m.len() > 0,
        m[0].len() > 0,
        forall|r: int| 0 <= r < m.len() ==> (#[trigger] m[r]).len() == m[0].len(),
    ensures
        transpose_of(transpose_of(m)) == m,
{
    let t = transpose_of(m);
    assert(t.len() == m[0].len());
    assert(t[0].len() == m.len());
    assert forall|r: int| 0 <= r < m.len() implies transpose_of(t)[r] =~= m[r] by {
        assert(forall|c: int| 0 <= c < m[0].len() ==> transpose_of(t)[r][c] == m[r][c]);
    }
    assert(transpose_of(t) =~~= m);
}

/// The fingerprint reads only the occupied region: boards whose regions
/// hold the same letters at the same relative positions fingerprint
/// identically, wherever on the canvas the region sits.
pub proof fn lemma_hash_region(g1: Seq<Seq<char>>, g2: Seq<Seq<char>>)
    requires
        region_of(g2) == region_of(g1),
    ensures
        spec_hash(g2) == spec_hash(g1),
{
}

/// Transposing the occupied region leaves the canonical fingerprint
/// unchanged: a board whose region is the row/column swap of another's
/// fingerprints identically.
pub proof fn lemma_hash_transpose(g1: Seq<Seq<char>>, g2: Seq<Seq<char>>)
    requires
        is_rect(g1),
        region_of(g2) == transpose_of(region_of(g1)),
    ensures
        spec_hash(g2) == spec_hash(g1),
{
    if has_letter(g1) {
        lemma_bbox_exists(g1);
        let t = bbox_of(g1);
        let m = region_of(g1);
        let e4 = choose|r: int|
            0 <= r < g1.len() && t.3 < g1[r].len() && occupied(g1, r, t.3);
        assert(m.len() == t.1 - t.0 + 1);
        assert forall|r: int| 0 <= r < m.len() implies (#[trigger] m[r]).len() == t.3 + 1
            - t.2 by {
            assert(g1[t.0 + r].len() == g1[0].len());
            assert(g1[e4].len() == g1[0].len());
        }
        lemma_transpose_involutive(m);
    } else {
        assert(region_of(g1) == Seq::<Seq<char>>::empty());
        assert(transpose_of(region_of(g1)) == Seq::<Seq<char>>::empty());
        if has_letter(g2) {
            lemma_bbox_exists(g2);
            assert(region_of(g2).len() > 0);
        }
    }
}

} // verus!

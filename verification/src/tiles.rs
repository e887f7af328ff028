//! Bag-of-letters arithmetic for the tile pool.
//!
//! A pool of tiles is a sequence of characters whose order never matters:
//! all reasoning goes through `count_in`, the number of occurrences of a
//! letter. A word is spellable from a pool when the pool has at least as
//! many copies of every letter as the word needs.
use vstd::prelude::*;

verus! {

/// Number of occurrences of `c` in `s`.
pub open spec fn count_in(s: Seq<char>, c: char) -> nat
    decreases s.len(),
{
    if s.len() == 0 {
        0
    } else {
        count_in(s.drop_last(), c) + (if s.last() == c {
            1nat
        } else {
            0nat
        })
    }
}

/// `word` can be assembled from `tiles`, each tile consumed at most once.
pub open spec fn can_spell(word: Seq<char>, tiles: Seq<char>) -> bool {
    forall|c: char| count_in(word, c) <= count_in(tiles, c)
}

pub proof fn lemma_count_in_le_len(s: Seq<char>, c: char)
    ensures
        count_in(s, c) <= s.len(),
    decreases s.len(),
{
    if s.len() > 0 {
        lemma_count_in_le_len(s.drop_last(), c);
    }
}

pub proof fn lemma_count_in_zero(s: Seq<char>, c: char)
    ensures
        (count_in(s, c) == 0) <==> !s.contains(c),
    decreases s.len(),
{
    if s.len() > 0 {
        lemma_count_in_zero(s.drop_last(), c);
        if s.contains(c) {
            let i = choose|i: int| 0 <= i < s.len() && s[i] == c;
            if i < s.len() - 1 {
                assert(s.drop_last()[i] == c);
                assert(s.drop_last().contains(c));
            } else {
                assert(s.last() == c);
            }
        } else {
            assert(!s.drop_last().contains(c)) by {
                if s.drop_last().contains(c) {
                    let i = choose|i: int| 0 <= i < s.drop_last().len() && s.drop_last()[i] == c;
                    assert(s[i] == c);
                }
            }
        }
    }
}

/// A sequence counts as many occurrences as its length exactly when
/// every element is the counted one.
pub proof fn lemma_count_in_all(s: Seq<char>, c: char)
    ensures
        (count_in(s, c) == s.len()) <==> (forall|i: int| 0 <= i < s.len() ==> s[i] == c),
    decreases s.len(),
{
    if s.len() > 0 {
        lemma_count_in_all(s.drop_last(), c);
        lemma_count_in_le_len(s.drop_last(), c);
        if count_in(s, c) == s.len() {
            assert(forall|i: int| 0 <= i < s.len() - 1 ==> s[i] == s.drop_last()[i]);
        }
        if forall|i: int| 0 <= i < s.len() ==> s[i] == c {
            assert(forall|i: int|
                0 <= i < s.drop_last().len() ==> #[trigger] s.drop_last()[i] == s[i]);
        }
    }
}

/// Counting splits over concatenation.
pub proof fn lemma_count_in_concat(a: Seq<char>, b: Seq<char>, c: char)
    ensures
        count_in(a + b, c) == count_in(a, c) + count_in(b, c),
    decreases b.len(),
{
    if b.len() == 0 {
        assert(a + b =~= a);
    } else {
        assert((a + b).drop_last() =~= a + b.drop_last());
        assert((a + b).last() == b.last());
        lemma_count_in_concat(a, b.drop_last(), c);
    }
}

/// Removing one element lowers its letter's count by one.
pub proof fn lemma_count_in_remove(s: Seq<char>, i: int, c: char)
    requires
        0 <= i < s.len(),
    ensures
        count_in(s.remove(i), c) == count_in(s, c) - (if s[i] == c {
            1int
        } else {
            0int
        }),
{
    let mid = s.subrange(i, i + 1);
    assert(count_in(mid, c) == (if s[i] == c {
        1int
    } else {
        0int
    })) by {
        assert(mid.len() == 1);
        assert(mid.drop_last() =~= Seq::<char>::empty());
        assert(mid.last() == s[i]);
        assert(count_in(mid.drop_last(), c) == 0);
    }
    assert(s =~= s.take(i) + (mid + s.skip(i + 1)));
    lemma_count_in_concat(s.take(i), mid + s.skip(i + 1), c);
    lemma_count_in_concat(mid, s.skip(i + 1), c);
    assert(s.remove(i) =~= s.take(i) + s.skip(i + 1));
    lemma_count_in_concat(s.take(i), s.skip(i + 1), c);
}

/// Count the occurrences of `c` in `s`.
pub fn count_char(s: &[char], c: char) -> (n: usize)
    ensures
        n == count_in(s@, c),
{
    let mut n: usize = 0;
    let mut i: usize = 0;
    while i < s.len()
        invariant
            i <= s@.len(),
            n <= i,
            n == count_in(s@.take(i as int), c),
        decreases s@.len() - i,
    {
        proof {
            assert(s@.take(i + 1).drop_last() =~= s@.take(i as int));
            assert(s@.take(i + 1).last() == s@[i as int]);
        }
        if s[i] == c {
            n = n + 1;
        }
        i = i + 1;
    }
    proof {
        assert(s@.take(s@.len() as int) =~= s@);
    }
    n
}

/// Can this word be assembled from these tiles?
pub fn can_be_made_with(word: &[char], tiles: &[char]) -> (r: bool)
    ensures
        r == can_spell(word@, tiles@),
{
    let mut i: usize = 0;
    while i < word.len()
        invariant
            i <= word@.len(),
            forall|j: int|
                0 <= j < i ==> count_in(word@, #[trigger] word@[j]) <= count_in(tiles@, word@[j]),
        decreases word@.len() - i,
    {
        let wc = count_char(word, word[i]);
        let tc = count_char(tiles, word[i]);
        if wc > tc {
            assert(count_in(word@, word@[i as int]) > count_in(tiles@, word@[i as int]));
            return false;
        }
        i = i + 1;
    }
    proof {
        assert forall|c: char| count_in(word@, c) <= count_in(tiles@, c) by {
            lemma_count_in_zero(word@, c);
            if count_in(word@, c) > 0 {
                let j = choose|j: int| 0 <= j < word@.len() && word@[j] == c;
                assert(count_in(word@, word@[j]) <= count_in(tiles@, word@[j]));
            }
        }
    }
    true
}

} // verus!

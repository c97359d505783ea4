//! Words: runs of characters between whitespace.

use vstd::prelude::*;

verus! {

/// Whether `c` is whitespace: one of the characters that Unicode marks
/// `White_Space`.
pub open spec fn is_whitespace(c: char) -> bool {
    let u = c as u32;
    ||| 0x09 <= u <= 0x0D
    ||| u == 0x20
    ||| u == 0x85
    ||| u == 0xA0
    ||| u == 0x1680
    ||| 0x2000 <= u <= 0x200A
    ||| u == 0x2028
    ||| u == 0x2029
    ||| u == 0x202F
    ||| u == 0x205F
    ||| u == 0x3000
}

/// Whether a word begins at position `i` of `s`: the character there is no
/// whitespace, and it is the first or follows whitespace.
pub open spec fn starts_word(s: Seq<char>, i: int) -> bool
    recommends
        0 <= i < s.len(),
{
    !is_whitespace(s[i]) && (i == 0 || is_whitespace(s[i - 1]))
}

/// Number of words in `s`.
pub open spec fn word_count(s: Seq<char>) -> nat
    decreases s.len(),
{
    if s.len() == 0 {
        0
    } else {
        word_count(s.drop_last()) + (if starts_word(s, s.len() - 1) {
            1nat
        } else {
            0nat
        })
    }
}

/// There are no more words than characters.
pub proof fn lemma_word_count_le_len(s: Seq<char>)
    ensures
        word_count(s) <= s.len(),
    decreases s.len(),
{
    if s.len() > 0 {
        lemma_word_count_le_len(s.drop_last());
    }
}

/// The words of two texts, one after the other, are those of the first and
/// those of the second, where the first ends in whitespace or is empty.
pub proof fn lemma_word_count_concat(x: Seq<char>, y: Seq<char>)
    requires
        x.len() == 0 || is_whitespace(x.last()),
    ensures
        word_count(x + y) == word_count(x) + word_count(y),
    decreases y.len(),
{
    if y.len() == 0 {
        assert(x + y =~= x);
    } else {
        let all = x + y;
        lemma_word_count_concat(x, y.drop_last());
        assert(all.drop_last() =~= x + y.drop_last());
        assert(all[all.len() - 1] == y[y.len() - 1]);
        if y.len() > 1 {
            assert(all[all.len() - 2] == y[y.len() - 2]);
        } else if x.len() > 0 {
            assert(all[all.len() - 2] == x.last());
        }
    }
}

/// Whether `c` is whitespace.
pub fn is_space(c: char) -> (r: bool)
    ensures
        r == is_whitespace(c),
{
    let u: u32 = c as u32;
    (0x09 <= u && u <= 0x0D) || u == 0x20 || u == 0x85 || u == 0xA0 || u == 0x1680 || (0x2000
        <= u && u <= 0x200A) || u == 0x2028 || u == 0x2029 || u == 0x202F || u == 0x205F || u
        == 0x3000
}

/// Counts the words of `text`.
pub fn count_words(text: &[char]) -> (n: usize)
    ensures
        n == word_count(text@),
        n <= text@.len(),
{
    let mut n: usize = 0;
    let mut after_space: bool = true;
    let mut i: usize = 0;
    while i < text.len()
        invariant
            i <= text@.len(),
            n <= i,
            n == word_count(text@.take(i as int)),
            after_space == (i == 0 || is_whitespace(text@[i - 1])),
        decreases text@.len() - i,
    {
        let space = is_space(text[i]);
        proof {
            let next = text@.take(i + 1);
            assert(next.drop_last() =~= text@.take(i as int));
        }
        if !space && after_space {
            n += 1;
        }
        after_space = space;
        i += 1;
    }
    proof {
        assert(text@.take(i as int) =~= text@);
    }
    n
}

} // verus!

//! Lines of a sequence of bytes or characters.
//!
//! A line runs up to and including the next newline, or to the end of the
//! sequence where no newline follows. The model is generic in the element
//! type, so that the same definitions serve raw bytes and decoded text.

use vstd::prelude::*;

verus! {

/// The byte that ends a line.
pub const NEWLINE: u8 = 10;

/// The character that ends a line.
pub const NEWLINE_CHAR: char = '\n';

/// Length of the first line of `s`, its newline included: all of `s` where it
/// holds no newline, and 0 only where `s` is empty.
pub open spec fn first_line_len<T>(s: Seq<T>, nl: T) -> nat
    decreases s.len(),
{
    if s.len() == 0 {
        0
    } else if s[0] == nl {
        1
    } else {
        1 + first_line_len(s.skip(1), nl)
    }
}

/// Number of newlines in `s`.
pub open spec fn newline_count<T>(s: Seq<T>, nl: T) -> nat
    decreases s.len(),
{
    if s.len() == 0 {
        0
    } else {
        (if s[0] == nl { 1nat } else { 0nat }) + newline_count(s.skip(1), nl)
    }
}

/// Whether `s` ends in a line that no newline closes.
pub open spec fn has_open_tail<T>(s: Seq<T>, nl: T) -> bool {
    s.len() > 0 && s.last() != nl
}

/// Number of lines in `s`: one for each newline, and one more for a last
/// line that is not empty and not closed by a newline.
pub open spec fn line_count<T>(s: Seq<T>, nl: T) -> nat {
    newline_count(s, nl) + (if has_open_tail(s, nl) { 1nat } else { 0nat })
}

/// The lines of `s` in order, each with its newline.
pub open spec fn lines_of<T>(s: Seq<T>, nl: T) -> Seq<Seq<T>>
    decreases s.len(),
{
    if s.len() == 0 {
        Seq::empty()
    } else {
        let k = first_line_len(s, nl) as int;
        if 0 < k <= s.len() {
            seq![s.take(k)] + lines_of(s.skip(k), nl)
        } else {
            Seq::empty()
        }
    }
}

/// The elements of `lines` one after another.
pub open spec fn join<T>(lines: Seq<Seq<T>>) -> Seq<T>
    decreases lines.len(),
{
    if lines.len() == 0 {
        Seq::empty()
    } else {
        join(lines.drop_last()) + lines.last()
    }
}

/// Whether `line` is one line: not empty, with no newline before its last
/// element.
pub open spec fn is_line<T>(line: Seq<T>, nl: T) -> bool {
    &&& line.len() > 0
    &&& forall|i: int| 0 <= i < line.len() - 1 ==> line[i] != nl
}

/// The first line is never longer than the sequence, is empty only where
/// the sequence is, holds no newline before its last element, and ends in a
/// newline wherever something follows it.
pub proof fn lemma_first_line<T>(s: Seq<T>, nl: T)
    ensures
        first_line_len(s, nl) <= s.len(),
        s.len() > 0 ==> first_line_len(s, nl) >= 1,
        forall|i: int| 0 <= i < first_line_len(s, nl) - 1 ==> s[i] != nl,
        first_line_len(s, nl) < s.len() ==> s[first_line_len(s, nl) - 1] == nl,
        s.len() > 0 && s[first_line_len(s, nl) - 1] != nl ==> first_line_len(s, nl) == s.len(),
    decreases s.len(),
{
    if s.len() > 0 && s[0] != nl {
        let rest = s.skip(1);
        lemma_first_line(rest, nl);
        assert forall|i: int| 0 <= i < first_line_len(s, nl) - 1 implies s[i] != nl by {
            if i > 0 {
                assert(s[i] == rest[i - 1]);
            }
        }
    }
}

/// A sequence that is not empty has one line more than what follows its
/// first line.
pub proof fn lemma_line_count_step<T>(s: Seq<T>, nl: T)
    requires
        s.len() > 0,
    ensures
        line_count(s, nl) == 1 + line_count(s.skip(first_line_len(s, nl) as int), nl),
    decreases s.len(),
{
    let rest = s.skip(1);
    if s.len() == 1 {
        assert(rest.len() == 0);
        assert(first_line_len(s, nl) == 1);
    } else {
        assert(rest.last() == s.last());
        if s[0] != nl {
            lemma_line_count_step(rest, nl);
            let k = first_line_len(rest, nl) as int;
            lemma_first_line(rest, nl);
            assert(rest.skip(k) =~= s.skip(k + 1));
        }
    }
}

/// The newlines of a sequence are those before position `k` and those
/// from it on.
pub proof fn lemma_newline_count_split<T>(s: Seq<T>, nl: T, k: int)
    requires
        0 <= k <= s.len(),
    ensures
        newline_count(s, nl) == newline_count(s.take(k), nl) + newline_count(s.skip(k), nl),
    decreases k,
{
    if k == 0 {
        assert(s.skip(0) =~= s);
    } else {
        lemma_newline_count_split(s.skip(1), nl, k - 1);
        assert(s.take(k).skip(1) =~= s.skip(1).take(k - 1));
        assert(s.skip(1).skip(k - 1) =~= s.skip(k));
    }
}

/// One line holds one newline where it ends in one, and none else.
pub proof fn lemma_newline_count_of_line<T>(line: Seq<T>, nl: T)
    requires
        is_line(line, nl),
    ensures
        newline_count(line, nl) == if line.last() == nl {
            1nat
        } else {
            0nat
        },
    decreases line.len(),
{
    let rest = line.skip(1);
    if line.len() == 1 {
        assert(newline_count(rest, nl) == 0);
    } else {
        assert(is_line(rest, nl));
        lemma_newline_count_of_line(rest, nl);
    }
}

/// The sequence begins with its first line, which is a line; the lines
/// that follow are those of the rest, and so are the newlines that follow.
pub proof fn lemma_lines_step<T>(s: Seq<T>, nl: T)
    requires
        s.len() > 0,
    ensures
        ({
            let k = first_line_len(s, nl) as int;
            &&& 0 < k <= s.len()
            &&& is_line(s.take(k), nl)
            &&& lines_of(s, nl) == seq![s.take(k)] + lines_of(s.skip(k), nl)
            &&& newline_count(s, nl) == newline_count(s.skip(k), nl) + if s[k - 1] == nl {
                1nat
            } else {
                0nat
            }
            &&& s[k - 1] != nl ==> k == s.len()
        }),
{
    lemma_first_line(s, nl);
    let k = first_line_len(s, nl) as int;
    lemma_newline_count_split(s, nl, k);
    lemma_newline_count_of_line(s.take(k), nl);
}

/// A line with something behind it is the first line of the whole, where a
/// newline closes it or nothing follows.
pub proof fn lemma_first_line_of_concat<T>(a: Seq<T>, b: Seq<T>, nl: T)
    requires
        is_line(a, nl),
        a.last() == nl || b.len() == 0,
    ensures
        first_line_len(a + b, nl) == a.len(),
    decreases a.len(),
{
    let s = a + b;
    assert(s.len() > 0);
    assert(s[0] == a[0]);
    assert(a.last() == a[a.len() - 1]);
    if a.len() == 1 {
        if a[0] != nl {
            assert(s.skip(1) =~= Seq::<T>::empty());
            assert(first_line_len(s.skip(1), nl) == 0);
        }
    } else {
        let rest = a.skip(1);
        assert(a[0] != nl);
        assert(rest.last() == a.last());
        assert forall|i: int| 0 <= i < rest.len() - 1 implies rest[i] != nl by {
            assert(rest[i] == a[i + 1]);
        }
        lemma_first_line_of_concat(rest, b, nl);
        assert(s.skip(1) =~= rest + b);
        assert(first_line_len(s, nl) == 1 + first_line_len(s.skip(1), nl));
    }
}

/// There are as many lines in `lines_of` as `line_count` says, each is a
/// line, and together they are the sequence.
pub proof fn lemma_lines_of<T>(s: Seq<T>, nl: T)
    ensures
        lines_of(s, nl).len() == line_count(s, nl),
        forall|i: int| 0 <= i < lines_of(s, nl).len() ==> is_line(#[trigger] lines_of(s, nl)[i], nl),
        forall|i: int|
            0 <= i < lines_of(s, nl).len() - 1 ==> (#[trigger] lines_of(s, nl)[i]).last() == nl,
        join(lines_of(s, nl)) == s,
    decreases s.len(),
{
    if s.len() > 0 {
        lemma_first_line(s, nl);
        lemma_line_count_step(s, nl);
        let k = first_line_len(s, nl) as int;
        let rest = s.skip(k);
        lemma_lines_of(rest, nl);
        let all = lines_of(s, nl);
        let tail = lines_of(rest, nl);
        assert(all =~= seq![s.take(k)] + tail);
        assert forall|i: int| 0 <= i < all.len() implies is_line(#[trigger] all[i], nl) by {
            if i > 0 {
                assert(all[i] == tail[i - 1]);
            }
        }
        assert forall|i: int| 0 <= i < all.len() - 1 implies (#[trigger] all[i]).last() == nl by {
            if i > 0 {
                assert(all[i] == tail[i - 1]);
            }
        }
        lemma_join_prepend(s.take(k), tail);
        assert(s.take(k) + rest =~= s);
    }
}

/// Joining with one more line in front puts that line in front.
pub proof fn lemma_join_prepend<T>(line: Seq<T>, lines: Seq<Seq<T>>)
    ensures
        join(seq![line] + lines) == line + join(lines),
    decreases lines.len(),
{
    let all = seq![line] + lines;
    if lines.len() == 0 {
        assert(join(all.drop_last()) =~= Seq::<T>::empty());
    } else {
        lemma_join_prepend(line, lines.drop_last());
        assert(all.drop_last() =~= seq![line] + lines.drop_last());
    }
}

/// End of the line of `data` that starts at `start`.
pub fn line_end(data: &[u8], start: usize) -> (end: usize)
    requires
        start <= data@.len(),
    ensures
        end == start + first_line_len(data@.skip(start as int), NEWLINE),
        start <= end <= data@.len(),
{
    let mut i: usize = start;
    while i < data.len()
        invariant
            start <= i <= data@.len(),
            first_line_len(data@.skip(start as int), NEWLINE) == (i - start) + first_line_len(
                data@.skip(i as int),
                NEWLINE,
            ),
        decreases data@.len() - i,
    {
        proof {
            assert(data@.skip(i as int).skip(1) =~= data@.skip(i + 1));
        }
        if data[i] == NEWLINE {
            return i + 1;
        }
        i += 1;
    }
    i
}

/// End of the line of `text` that starts at `start`.
pub fn text_line_end(text: &[char], start: usize) -> (end: usize)
    requires
        start <= text@.len(),
    ensures
        end == start + first_line_len(text@.skip(start as int), NEWLINE_CHAR),
        start <= end <= text@.len(),
{
    let mut i: usize = start;
    while i < text.len()
        invariant
            start <= i <= text@.len(),
            first_line_len(text@.skip(start as int), NEWLINE_CHAR) == (i - start) + first_line_len(
                text@.skip(i as int),
                NEWLINE_CHAR,
            ),
        decreases text@.len() - i,
    {
        proof {
            assert(text@.skip(i as int).skip(1) =~= text@.skip(i + 1));
        }
        if text[i] == NEWLINE_CHAR {
            return i + 1;
        }
        i += 1;
    }
    i
}

} // verus!

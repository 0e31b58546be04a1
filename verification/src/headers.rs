//! The header block of a response: lines of text, one of which declares how
//! long the whole payload is.

use crate::decimal::{parse_usize, parsed_usize};
use crate::text::chars_of;
use vstd::prelude::*;
use vstd::slice::slice_subrange;

verus! {

/// The header block of one response, as the text that stood before the blank line.
#[derive(Debug, PartialEq, Eq)]
pub struct Headers {
    pub all: String,
}

/// What a line begins with when it declares the payload's length.
pub open spec fn length_prefix() -> Seq<char> {
    "Content-Length: "@
}

/// Where the first line of `s` ends: the place of its first line feed, or the
/// length of `s` if it holds none.
pub open spec fn line_end(s: Seq<char>) -> nat
    decreases s.len(),
{
    if s.len() == 0 || s[0] == '\n' {
        0
    } else {
        1 + line_end(s.drop_first())
    }
}

/// A line without the carriage return that stood before its line feed, if one did.
pub open spec fn without_carriage_return(line: Seq<char>) -> Seq<char> {
    if line.len() > 0 && line.last() == '\r' {
        line.drop_last()
    } else {
        line
    }
}

/// The lines of `s`.  A line ends at a line feed, or at a carriage return followed
/// by a line feed; neither belongs to the line.  What follows the last line feed
/// is a line too, unless it is empty.
pub open spec fn lines(s: Seq<char>) -> Seq<Seq<char>>
    decreases s.len(),
{
    if s.len() == 0 {
        Seq::empty()
    } else {
        let e = line_end(s);
        if e >= s.len() {
            seq![s]
        } else {
            seq![without_carriage_return(s.take(e as int))] + lines(s.skip(e + 1 as int))
        }
    }
}

/// Whether `line` declares a length: whether it begins with [`length_prefix`].
pub open spec fn is_length_line(line: Seq<char>) -> bool {
    length_prefix().is_prefix_of(line)
}

/// The first of `lines` that declares a length.
pub open spec fn first_length_line(lines: Seq<Seq<char>>) -> Option<Seq<char>>
    decreases lines.len(),
{
    if lines.len() == 0 {
        None
    } else if is_length_line(lines[0]) {
        Some(lines[0])
    } else {
        first_length_line(lines.drop_first())
    }
}

/// The length that a line declares: what follows the prefix, read as a `usize`.
pub open spec fn line_length(line: Seq<char>) -> Option<usize> {
    parsed_usize(line.skip(length_prefix().len() as int))
}

/// The length that a header block declares.  Only its first length line counts:
/// if that line's value cannot be read, the block declares nothing, whatever
/// later lines say.
pub open spec fn declared_length(text: Seq<char>) -> Option<usize> {
    match first_length_line(lines(text)) {
        Some(line) => line_length(line),
        None => None,
    }
}

/// Every place before the end of the first line holds something other than a
/// line feed, and the end itself, where it lies inside `s`, holds a line feed.
pub proof fn lemma_line_end(s: Seq<char>)
    ensures
        line_end(s) <= s.len(),
        forall|i: int| 0 <= i < line_end(s) ==> s[i] != '\n',
        line_end(s) < s.len() ==> s[line_end(s) as int] == '\n',
    decreases s.len(),
{
    if s.len() == 0 || s[0] == '\n' {
    } else {
        let t = s.drop_first();
        lemma_line_end(t);
        assert forall|i: int| 0 <= i < line_end(s) implies s[i] != '\n' by {
            if i > 0 {
                assert(s[i] == t[i - 1]);
            }
        }
    }
}

/// The first line of `s` ends at `e` if no line feed stands before `e` and `e` is
/// the end of `s` or holds a line feed.
pub proof fn lemma_line_end_is(s: Seq<char>, e: int)
    requires
        0 <= e <= s.len(),
        forall|i: int| 0 <= i < e ==> s[i] != '\n',
        e < s.len() ==> s[e] == '\n',
    ensures
        line_end(s) == e,
    decreases s.len(),
{
    if e == 0 {
    } else {
        let t = s.drop_first();
        assert forall|i: int| 0 <= i < e - 1 implies t[i] != '\n' by {
            assert(t[i] == s[i + 1]);
        }
        lemma_line_end_is(t, e - 1);
    }
}

/// The first line of a text is what stands before its first line feed, and the
/// other lines are the lines of what follows it.
pub proof fn lemma_lines_after_first(first: Seq<char>, rest: Seq<char>)
    requires
        forall|i: int| 0 <= i < first.len() ==> first[i] != '\n',
    ensures
        lines(first + seq!['\n'] + rest) == seq![without_carriage_return(first)] + lines(rest),
{
    let s = first + seq!['\n'] + rest;
    lemma_line_end_is(s, first.len() as int);
    assert(s.take(first.len() as int) =~= first);
    assert(s.skip(first.len() + 1 as int) =~= rest);
}

/// Behind a text that ends with a line feed, another text adds its own lines.
pub proof fn lemma_lines_concat(head: Seq<char>, rest: Seq<char>)
    requires
        head.len() == 0 || head.last() == '\n',
    ensures
        lines(head + rest) == lines(head) + lines(rest),
    decreases head.len(),
{
    if head.len() == 0 {
        assert(head + rest =~= rest);
        assert(lines(head) + lines(rest) =~= lines(rest));
    } else {
        lemma_line_end(head);
        let e = line_end(head) as int;
        assert(e < head.len()) by {
            if e >= head.len() {
                assert(head[head.len() - 1] != '\n');
            }
        }
        let s = head + rest;
        assert forall|i: int| 0 <= i < e implies s[i] != '\n' by {
            assert(s[i] == head[i]);
        }
        assert(s[e] == head[e]);
        lemma_line_end_is(s, e);
        let tail = head.skip(e + 1);
        assert(tail.len() == 0 || tail.last() == '\n') by {
            if tail.len() > 0 {
                assert(tail.last() == head.last());
            }
        }
        lemma_lines_concat(tail, rest);
        assert(s.take(e) =~= head.take(e));
        assert(s.skip(e + 1) =~= tail + rest);
        assert(lines(s) =~= lines(head) + lines(rest));
    }
}

/// Among lines, the first that declares a length is found whatever follows it.
pub proof fn lemma_first_length_line_wins(
    before: Seq<Seq<char>>,
    line: Seq<char>,
    after: Seq<Seq<char>>,
)
    requires
        forall|i: int| 0 <= i < before.len() ==> !is_length_line(#[trigger] before[i]),
        is_length_line(line),
    ensures
        first_length_line(before + seq![line] + after) == Some(line),
    decreases before.len(),
{
    let all = before + seq![line] + after;
    if before.len() == 0 {
        assert(all[0] == line);
    } else {
        assert(all[0] == before[0]);
        assert(all.drop_first() =~= before.drop_first() + seq![line] + after);
        assert forall|i: int| 0 <= i < before.drop_first().len() implies !is_length_line(
            #[trigger] before.drop_first()[i],
        ) by {
            assert(before.drop_first()[i] == before[i + 1]);
        }
        lemma_first_length_line_wins(before.drop_first(), line, after);
    }
}

/// No line among `lines` declares a length exactly if none is found.
pub proof fn lemma_no_length_line(lines: Seq<Seq<char>>)
    ensures
        first_length_line(lines) is None <==> forall|i: int|
            0 <= i < lines.len() ==> !is_length_line(#[trigger] lines[i]),
    decreases lines.len(),
{
    if lines.len() > 0 {
        lemma_no_length_line(lines.drop_first());
        if first_length_line(lines) is None {
            assert forall|i: int| 0 <= i < lines.len() implies !is_length_line(
                #[trigger] lines[i],
            ) by {
                if i > 0 {
                    assert(lines[i] == lines.drop_first()[i - 1]);
                }
            }
        } else if !is_length_line(lines[0]) {
            let j = choose|j: int|
                0 <= j < lines.drop_first().len() && is_length_line(
                    #[trigger] lines.drop_first()[j],
                );
            assert(lines[j + 1] == lines.drop_first()[j]);
        }
    }
}

/// Of several lines that declare a length only the first counts.  Where no
/// line of `head` declares one and the next line holds `value` behind the
/// prefix, the block declares what `value` reads as, whatever `tail` holds.
pub proof fn lemma_first_declaration_counts(head: Seq<char>, value: Seq<char>, tail: Seq<char>)
    requires
        head.len() == 0 || head.last() == '\n',
        first_length_line(lines(head)) is None,
        forall|i: int| 0 <= i < value.len() ==> value[i] != '\n',
    ensures
        declared_length(head + (length_prefix() + value + seq!['\n'] + tail)) == parsed_usize(
            without_carriage_return(value),
        ),
{
    reveal_strlit("Content-Length: ");
    let prefix = length_prefix();
    let first = prefix + value;
    let line = without_carriage_return(first);
    lemma_lines_concat(head, first + seq!['\n'] + tail);
    lemma_lines_after_first(first, tail);
    lemma_no_length_line(lines(head));
    assert(prefix =~= line.subrange(0, prefix.len() as int));
    lemma_first_length_line_wins(lines(head), line, lines(tail));
    assert(line.skip(prefix.len() as int) =~= without_carriage_return(value));
    assert(lines(head) + (seq![line] + lines(tail)) =~= lines(head) + seq![line] + lines(tail));
}

/// Whether `line` begins with `prefix`.
fn begins_with(line: &[char], prefix: &[char]) -> (r: bool)
    ensures
        r == prefix@.is_prefix_of(line@),
{
    if prefix.len() > line.len() {
        return false;
    }
    let mut i: usize = 0;
    while i < prefix.len()
        invariant
            i <= prefix.len() <= line.len(),
            forall|j: int| 0 <= j < i ==> prefix@[j] == line@[j],
        decreases prefix.len() - i,
    {
        if prefix[i] != line[i] {
            assert(line@.subrange(0, prefix@.len() as int)[i as int] != prefix@[i as int]);
            return false;
        }
        i += 1;
    }
    assert(prefix@ =~= line@.subrange(0, prefix@.len() as int));
    true
}

impl Headers {
    /// The payload length that this header block declares, if it declares one.
    pub fn content_length(&self) -> (res: Option<usize>)
        ensures
            res == declared_length(self.all@),
    {
        let text = chars_of(self.all.as_str());
        let prefix = chars_of("Content-Length: ");
        let n = text.len();
        let mut pos: usize = 0;
        assert(text@.skip(0) =~= text@);
        while pos < n
            invariant
                pos <= n,
                n == text@.len(),
                text@ == self.all@,
                prefix@ == length_prefix(),
                declared_length(text@) == declared_length(text@.skip(pos as int)),
            decreases n - pos,
        {
            let ghost rest = text@.skip(pos as int);
            let mut e: usize = pos;
            while e < n && text[e] != '\n'
                invariant
                    pos <= e <= n,
                    n == text@.len(),
                    rest == text@.skip(pos as int),
                    forall|i: int| 0 <= i < e - pos ==> rest[i] != '\n',
                decreases n - e,
            {
                e += 1;
            }
            proof {
                lemma_line_end_is(rest, e - pos);
            }
            let end: usize = if e < n && e > pos && text[e - 1] == '\r' {
                e - 1
            } else {
                e
            };
            let line = slice_subrange(text.as_slice(), pos, end);
            let ghost first = if e < n {
                without_carriage_return(rest.take(e - pos))
            } else {
                rest
            };
            assert(line@ =~= first);
            assert(lines(rest)[0] == first);
            if begins_with(line, prefix.as_slice()) {
                let value = slice_subrange(line, prefix.len(), line.len());
                assert(value@ =~= line@.skip(length_prefix().len() as int));
                return parse_usize(value);
            }
            if e >= n {
                assert(lines(rest) =~= seq![first]);
                assert(lines(rest).drop_first() =~= Seq::<Seq<char>>::empty());
                assert(first_length_line(lines(rest).drop_first()) is None);
                assert(first_length_line(lines(rest)) is None);
                return None;
            }
            assert(lines(rest).drop_first() =~= lines(rest.skip(e - pos + 1)));
            assert(rest.skip(e - pos + 1) =~= text@.skip(e + 1));
            pos = e + 1;
        }
        assert(text@.skip(n as int) =~= Seq::<char>::empty());
        None
    }
}

} // verus!

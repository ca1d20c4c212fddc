//! The lines of a configuration text, and which of them open a top-level entry.

use vstd::prelude::*;
use crate::text;

verus! {

/// The length of the first line of `text`, its line feed included.
pub open spec fn line_len(text: Seq<char>) -> nat
    decreases text.len(),
{
    if text.len() == 0 {
        0
    } else if text[0] == '\n' {
        1
    } else {
        1 + line_len(text.drop_first())
    }
}

/// A first line lies within its text, and is empty only if the text is.
pub proof fn lemma_line_len(text: Seq<char>)
    ensures
        line_len(text) <= text.len(),
        text.len() > 0 ==> line_len(text) > 0,
    decreases text.len(),
{
    if text.len() > 0 {
        lemma_line_len(text.drop_first());
    }
}

/// The lines of `text` in order, each with its line feed. What follows the last line feed is
/// a line too, unless nothing follows it.
pub open spec fn lines(text: Seq<char>) -> Seq<Seq<char>>
    decreases text.len(),
{
    if text.len() == 0 {
        Seq::empty()
    } else {
        proof {
            lemma_line_len(text);
        }
        seq![text.take(line_len(text) as int)] + lines(text.skip(line_len(text) as int))
    }
}

/// The byte offset at which line `i` begins.
pub open spec fn line_offset(lines: Seq<Seq<char>>, i: int) -> nat {
    text::byte_len(lines.take(i).flatten())
}

/// The lines of a text, put in a row, are that text again.
pub proof fn lines_make_up_text(text: Seq<char>)
    ensures
        lines(text).flatten() == text,
    decreases text.len(),
{
    if text.len() > 0 {
        lemma_line_len(text);
        let n = line_len(text) as int;
        lines_make_up_text(text.skip(n));
        let first = seq![text.take(n)];
        first.lemma_flatten_one_element();
        vstd::seq_lib::lemma_flatten_concat(first, lines(text.skip(n)));
        assert(text =~= text.take(n) + text.skip(n));
    }
}

/// A text up to and with its first line feed is its first line.
proof fn lemma_line_len_at(text: Seq<char>, k: int)
    requires
        0 <= k < text.len(),
        text[k] == '\n',
        forall|j: int| 0 <= j < k ==> text[j] != '\n',
    ensures
        line_len(text) == k + 1,
    decreases text.len(),
{
    if k > 0 {
        lemma_line_len_at(text.drop_first(), k - 1);
    }
}

/// A text without a line feed is one line.
pub(crate) proof fn lemma_line_len_whole(text: Seq<char>)
    requires
        forall|j: int| 0 <= j < text.len() ==> text[j] != '\n',
    ensures
        line_len(text) == text.len(),
    decreases text.len(),
{
    if text.len() > 0 {
        lemma_line_len_whole(text.drop_first());
    }
}

/// The first lines of a text are a prefix of it, and no line reaches past its end.
pub(crate) proof fn lemma_prefix(text: Seq<char>, i: int)
    requires
        0 <= i <= lines(text).len(),
    ensures
        lines(text).take(i).flatten().len() <= text.len(),
        lines(text).take(i).flatten() == text.take(lines(text).take(i).flatten().len() as int),
        lines(text).skip(i).flatten() == text.skip(lines(text).take(i).flatten().len() as int),
{
    let ls = lines(text);
    lines_make_up_text(text);
    assert(ls =~= ls.take(i) + ls.skip(i));
    vstd::seq_lib::lemma_flatten_concat(ls.take(i), ls.skip(i));
    let n = ls.take(i).flatten().len() as int;
    assert(text == ls.take(i).flatten() + ls.skip(i).flatten());
    assert(text.take(n) =~= ls.take(i).flatten());
    assert(text.skip(n) =~= ls.skip(i).flatten());
}

/// No line is empty.
pub proof fn lines_are_nonempty(text: Seq<char>)
    ensures
        forall|i: int| 0 <= i < lines(text).len() ==> (#[trigger] lines(text)[i]).len() > 0,
    decreases text.len(),
{
    if text.len() > 0 {
        lemma_line_len(text);
        let n = line_len(text) as int;
        lines_are_nonempty(text.skip(n));
        assert forall|i: int| 0 <= i < lines(text).len() implies (#[trigger] lines(
            text,
        )[i]).len() > 0 by {
            if i > 0 {
                assert(lines(text)[i] == lines(text.skip(n))[i - 1]);
            }
        }
    }
}

/// A later line begins at a greater byte offset.
pub(crate) proof fn lemma_offsets_grow(text: Seq<char>, i: int, j: int)
    requires
        0 <= i < j <= lines(text).len(),
    ensures
        line_offset(lines(text), i) < line_offset(lines(text), j),
    decreases j - i,
{
    let ls = lines(text);
    lines_are_nonempty(text);
    lemma_take_next(ls, j - 1);
    text::lemma_encode_concat(ls.take(j - 1).flatten(), ls[j - 1]);
    text::lemma_byte_len_covers(ls[j - 1]);
    if i < j - 1 {
        lemma_offsets_grow(text, i, j - 1);
    }
}

/// One more line makes the text before it longer by that line.
pub(crate) proof fn lemma_take_next(lines: Seq<Seq<char>>, i: int)
    requires
        0 <= i < lines.len(),
    ensures
        lines.take(i + 1).flatten() == lines.take(i).flatten() + lines[i],
{
    lines.take(i).lemma_flatten_push(lines[i]);
    assert(lines.take(i + 1) =~= lines.take(i).push(lines[i]));
}

/// The byte ranges of the lines of `input`, in order.
pub fn line_ranges(input: &str) -> (r: Vec<(usize, usize)>)
    ensures
        r@.len() == lines(input@).len(),
        forall|i: int|
            0 <= i < r@.len() ==> (#[trigger] r@[i]).0 == line_offset(lines(input@), i) && r@[i].1
                == line_offset(lines(input@), i + 1),
{
    let cs = text::chars(input);
    let size: usize = text::size(input);
    let mut ranges: Vec<(usize, usize)> = Vec::new();
    let mut start: usize = 0;
    let mut pos: usize = 0;
    let mut i: usize = 0;
    let ghost mut done: Seq<Seq<char>> = Seq::empty();
    let ghost mut s: int = 0;
    proof {
        assert(input@.skip(0) =~= input@);
        assert(input@.take(0) =~= Seq::<char>::empty());
        assert(done + lines(input@) =~= lines(input@));
    }
    while i < cs.len()
        invariant
            cs@ == input@,
            size == text::byte_len(input@),
            0 <= s <= i <= cs@.len(),
            lines(input@) == done + lines(input@.skip(s)),
            done.flatten() == input@.take(s),
            forall|j: int| s <= j < i ==> input@[j] != '\n',
            start == text::byte_len(input@.take(s)),
            pos == text::byte_len(input@.take(i as int)),
            ranges@.len() == done.len(),
            forall|j: int|
                0 <= j < ranges@.len() ==> (#[trigger] ranges@[j]).0 == line_offset(done, j)
                    && ranges@[j].1 == line_offset(done, j + 1),
        decreases cs.len() - i,
    {
        let c: char = cs[i];
        let w: usize = text::width(c);
        proof {
            assert(input@.take(i + 1) =~= input@.take(i as int) + seq![c]);
            text::lemma_encode_concat(input@.take(i as int), seq![c]);
            assert(input@ =~= input@.take(i + 1) + input@.skip(i + 1));
            text::lemma_encode_concat(input@.take(i + 1), input@.skip(i + 1));
        }
        pos = pos + w;
        if c == '\n' {
            ranges.push((start, pos));
            proof {
                let rest = input@.skip(s);
                lemma_line_len_at(rest, i - s);
                let line = rest.take(i + 1 - s);
                assert(rest.skip(i + 1 - s) =~= input@.skip(i + 1));
                assert(lines(rest) == seq![line] + lines(input@.skip(i + 1)));
                let grown = done.push(line);
                assert(done + lines(rest) =~= grown + lines(input@.skip(i + 1)));
                done.lemma_flatten_push(line);
                assert(input@.take(s) + line =~= input@.take(i + 1));
                assert forall|j: int| 0 <= j < ranges@.len() implies (#[trigger] ranges@[j]).0
                    == line_offset(grown, j) && ranges@[j].1 == line_offset(grown, j + 1) by {
                    assert(grown.take(j) =~= done.take(j));
                    if j < done.len() {
                        assert(grown.take(j + 1) =~= done.take(j + 1));
                    } else {
                        assert(done.take(j) =~= done);
                        assert(grown.take(j + 1) =~= grown);
                    }
                }
                done = grown;
                s = i + 1;
            }
            start = pos;
        }
        i = i + 1;
    }
    proof {
        assert(input@.take(cs.len() as int) =~= input@);
        text::lemma_byte_len_covers(input@.skip(s));
        assert(input@ =~= input@.take(s) + input@.skip(s));
        text::lemma_encode_concat(input@.take(s), input@.skip(s));
    }
    if start < size {
        ranges.push((start, size));
        proof {
            let rest = input@.skip(s);
            lemma_line_len_whole(rest);
            assert(rest.take(rest.len() as int) =~= rest);
            assert(rest.skip(rest.len() as int) =~= Seq::<char>::empty());
            assert(lines(Seq::<char>::empty()) =~= Seq::<Seq<char>>::empty());
            assert(lines(rest) =~= seq![rest]);
            let grown = done.push(rest);
            assert(lines(input@) =~= grown);
            done.lemma_flatten_push(rest);
            assert forall|j: int| 0 <= j < ranges@.len() implies (#[trigger] ranges@[j]).0
                == line_offset(grown, j) && ranges@[j].1 == line_offset(grown, j + 1) by {
                assert(grown.take(j) =~= done.take(j));
                if j < done.len() {
                    assert(grown.take(j + 1) =~= done.take(j + 1));
                } else {
                    assert(done.take(j) =~= done);
                    assert(grown.take(j + 1) =~= grown);
                }
            }
        }
    } else {
        proof {
            assert(input@.skip(s) =~= Seq::<char>::empty());
            assert(lines(input@) =~= done);
        }
    }
    ranges
}

/// The characters with the Unicode property `White_Space`.
pub open spec fn white_space(c: char) -> bool {
    ||| '\u{9}' <= c <= '\u{d}'
    ||| c == ' '
    ||| c == '\u{85}'
    ||| c == '\u{a0}'
    ||| c == '\u{1680}'
    ||| '\u{2000}' <= c <= '\u{200a}'
    ||| c == '\u{2028}'
    ||| c == '\u{2029}'
    ||| c == '\u{202f}'
    ||| c == '\u{205f}'
    ||| c == '\u{3000}'
}

/// `char::is_whitespace` tells whether a character has the Unicode property `White_Space`:
/// whether it is one of those that [`white_space`] lists.
pub assume_specification[ char::is_whitespace ](c: char) -> (r: bool)
    ensures
        r == white_space(c),
;

/// `line` without the carriage returns and line feeds at its end.
pub open spec fn line_body(line: Seq<char>) -> Seq<char>
    decreases line.len(),
{
    if line.len() > 0 && (line.last() == '\r' || line.last() == '\n') {
        line_body(line.drop_last())
    } else {
        line
    }
}

/// Whether `line` opens the top-level section `section`: the name, a colon, and then nothing,
/// a blank or a comment sign.
pub open spec fn opens_section(line: Seq<char>, section: Seq<char>) -> bool {
    let body = line_body(line);
    let n = section.len() as int;
    &&& n < body.len()
    &&& body.take(n) == section
    &&& body[n] == ':'
    &&& n + 1 < body.len() ==> body[n + 1] == ' ' || body[n + 1] == '\t' || body[n + 1] == '#'
}

/// The position of the first colon of `body` at `from` or after, or the end of `body` if none
/// is left.
pub open spec fn colon_at(body: Seq<char>, from: int) -> int
    decreases body.len() - from,
{
    if from >= body.len() {
        body.len() as int
    } else if body[from] == ':' {
        from
    } else {
        colon_at(body, from + 1)
    }
}

/// Whether anything but white space stands in `text`.
pub open spec fn names_something(text: Seq<char>) -> bool {
    exists|j: int| 0 <= j < text.len() && !white_space(#[trigger] text[j])
}

/// Whether `line` opens a top-level entry: it starts with no blank, comment sign or dash, and
/// something other than white space stands before its first colon.
pub open spec fn opens_entry(line: Seq<char>) -> bool {
    let body = line_body(line);
    &&& body.len() > 0
    &&& body[0] != ' ' && body[0] != '\t' && body[0] != '#' && body[0] != '-'
    &&& colon_at(body, 0) < body.len()
    &&& names_something(body.take(colon_at(body, 0)))
}

/// The number of characters of `line` that remain without the line ending.
fn body_len(line: &Vec<char>) -> (r: usize)
    ensures
        r <= line@.len(),
        line@.take(r as int) == line_body(line@),
{
    let mut n: usize = line.len();
    assert(line@.take(n as int) =~= line@);
    while n > 0 && (line[n - 1] == '\r' || line[n - 1] == '\n')
        invariant
            n <= line@.len(),
            line_body(line@.take(n as int)) == line_body(line@),
        decreases n,
    {
        assert(line@.take(n as int).drop_last() =~= line@.take(n - 1));
        n = n - 1;
    }
    n
}

/// Whether `line` opens the top-level section `section`.
pub fn is_section_header(line: &str, section: &str) -> (r: bool)
    ensures
        r == opens_section(line@, section@),
{
    let cs = text::chars(line);
    let name = text::chars(section);
    let end: usize = body_len(&cs);
    let ghost body = line_body(line@);
    let n: usize = name.len();
    if n >= end {
        return false;
    }
    let mut i: usize = 0;
    while i < n
        invariant
            name@ == section@,
            n == section@.len(),
            n < end <= cs@.len(),
            body == line_body(line@),
            body == cs@.take(end as int),
            i <= n,
            forall|j: int| 0 <= j < i ==> body[j] == section@[j],
        decreases n - i,
    {
        if cs[i] != name[i] {
            assert(body.take(n as int)[i as int] != section@[i as int]);
            return false;
        }
        i = i + 1;
    }
    assert(body.take(n as int) =~= section@);
    if cs[n] != ':' {
        return false;
    }
    n + 1 == end || cs[n + 1] == ' ' || cs[n + 1] == '\t' || cs[n + 1] == '#'
}

/// Whether `line` opens a top-level entry.
pub fn is_top_level_key(line: &str) -> (r: bool)
    ensures
        r == opens_entry(line@),
{
    let cs = text::chars(line);
    let end: usize = body_len(&cs);
    let ghost body = line_body(line@);
    if end == 0 || cs[0] == ' ' || cs[0] == '\t' || cs[0] == '#' || cs[0] == '-' {
        return false;
    }
    let mut named: bool = false;
    let mut i: usize = 0;
    while i < end
        invariant
            0 < end <= cs@.len(),
            body == line_body(line@),
            body == cs@.take(end as int),
            body[0] != ' ' && body[0] != '\t' && body[0] != '#' && body[0] != '-',
            i <= end,
            colon_at(body, 0) == colon_at(body, i as int),
            named == names_something(body.take(i as int)),
        decreases end - i,
    {
        let c: char = cs[i];
        if c == ':' {
            return named;
        }
        let ghost before = body.take(i as int);
        let ghost after = body.take(i + 1);
        let blank: bool = c.is_whitespace();
        proof {
            assert(after[i as int] == c);
            if names_something(before) {
                let j = choose|j: int| 0 <= j < before.len() && !white_space(#[trigger] before[j]);
                assert(after[j] == before[j]);
            }
            if names_something(after) && blank {
                let j = choose|j: int| 0 <= j < after.len() && !white_space(#[trigger] after[j]);
                assert(before[j] == after[j]);
            }
        }
        named = named || !blank;
        i = i + 1;
    }
    false
}

} // verus!

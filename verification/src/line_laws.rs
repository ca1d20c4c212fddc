//! What a line is, and which lines open something, told on the characters.

use vstd::prelude::*;
use crate::lines;
use crate::text;

verus! {

/// A first line has no line feed before its end.
proof fn lemma_feed_ends_line(text: Seq<char>)
    ensures
        forall|j: int| 0 <= j < lines::line_len(text) - 1 ==> #[trigger] text[j] != '\n',
    decreases text.len(),
{
    if text.len() > 0 && text[0] != '\n' {
        let rest = text.drop_first();
        lines::lemma_line_len(rest);
        lemma_feed_ends_line(rest);
        assert forall|j: int| 0 <= j < lines::line_len(text) - 1 implies #[trigger] text[j]
            != '\n' by {
            if j > 0 {
                assert(text[j] == rest[j - 1]);
            }
        }
    }
}

/// A first line that does not reach to the end of the text ends with a line feed.
proof fn lemma_line_before_more(text: Seq<char>)
    requires
        lines::line_len(text) < text.len(),
    ensures
        lines::line_len(text) > 0,
        text[lines::line_len(text) - 1] == '\n',
    decreases text.len(),
{
    if text[0] != '\n' {
        let rest = text.drop_first();
        lemma_line_before_more(rest);
        assert(text[lines::line_len(text) - 1] == rest[lines::line_len(rest) - 1]);
    }
}

/// A line has something in it, a line feed only at its end, and one there unless it is the last
/// line of the text.
pub proof fn line_feeds_end_lines(text: Seq<char>, i: int)
    requires
        0 <= i < lines::lines(text).len(),
    ensures
        lines::lines(text)[i].len() > 0,
        forall|j: int|
            0 <= j < lines::lines(text)[i].len() - 1 ==> #[trigger] lines::lines(text)[i][j]
                != '\n',
        i + 1 < lines::lines(text).len() ==> lines::lines(text)[i].last() == '\n',
    decreases text.len(),
{
    lines::lemma_line_len(text);
    let n = lines::line_len(text) as int;
    if i == 0 {
        lemma_feed_ends_line(text);
        if n < text.len() {
            lemma_line_before_more(text);
        } else {
            assert(text.skip(n) =~= Seq::<char>::empty());
        }
    } else {
        line_feeds_end_lines(text.skip(n), i - 1);
        assert(lines::lines(text)[i] == lines::lines(text.skip(n))[i - 1]);
    }
}

/// The first line begins at the first byte, and each line takes as many bytes as it has.
pub proof fn lines_lie_side_by_side(text: Seq<char>, i: int)
    requires
        0 <= i < lines::lines(text).len(),
    ensures
        lines::line_offset(lines::lines(text), 0) == 0,
        lines::line_offset(lines::lines(text), i + 1) == lines::line_offset(lines::lines(text), i)
            + text::byte_len(lines::lines(text)[i]),
        lines::line_offset(lines::lines(text), lines::lines(text).len() as int) == text::byte_len(
            text,
        ),
{
    let ls = lines::lines(text);
    assert(ls.take(0) =~= Seq::<Seq<char>>::empty());
    lines::lemma_take_next(ls, i);
    text::lemma_encode_concat(ls.take(i).flatten(), ls[i]);
    assert(ls.take(ls.len() as int) =~= ls);
    lines::lines_make_up_text(text);
}

/// What of a line comes before its ending.
proof fn lemma_body(line: Seq<char>)
    ensures
        lines::line_body(line).len() <= line.len(),
        lines::line_body(line) == line.take(lines::line_body(line).len() as int),
        forall|j: int|
            lines::line_body(line).len() <= j < line.len() ==> #[trigger] line[j] == '\r' || line[j]
                == '\n',
        lines::line_body(line).len() > 0 ==> lines::line_body(line).last() != '\r'
            && lines::line_body(line).last() != '\n',
    decreases line.len(),
{
    if line.len() > 0 && (line.last() == '\r' || line.last() == '\n') {
        let rest = line.drop_last();
        lemma_body(rest);
        let n = lines::line_body(line).len() as int;
        assert(rest.take(n) =~= line.take(n));
        assert forall|j: int| n <= j < line.len() implies #[trigger] line[j] == '\r' || line[j]
            == '\n' by {
            if j < rest.len() {
                assert(line[j] == rest[j]);
            }
        }
    } else {
        assert(line.take(line.len() as int) =~= line);
    }
}

/// A line opens a section exactly if it starts with the name of the section and a colon, and a
/// blank, a tab or a number sign comes next, or nothing but the ending of the line.
pub proof fn header_on_its_characters(line: Seq<char>, section: Seq<char>)
    ensures
        lines::opens_section(line, section) <==> {
            let n = section.len() as int;
            &&& section.push(':').is_prefix_of(line)
            &&& (n + 1 < line.len() && (line[n + 1] == ' ' || line[n + 1] == '\t' || line[n + 1]
                == '#')) || forall|j: int|
                n < j < line.len() ==> #[trigger] line[j] == '\r' || line[j] == '\n'
        },
{
    let n = section.len() as int;
    let body = lines::line_body(line);
    let start = section.push(':');
    lemma_body(line);
    if lines::opens_section(line, section) {
        assert forall|j: int| 0 <= j < start.len() implies start[j] == line[j] by {
            if j < n {
                assert(body.take(n)[j] == section[j]);
            }
        }
        assert(start =~= line.subrange(0, start.len() as int));
    }
    if start.is_prefix_of(line) {
        assert forall|j: int| 0 <= j < start.len() implies start[j] == #[trigger] line[j] by {
            assert(line.subrange(0, start.len() as int)[j] == line[j]);
        }
        assert(line[n] == start[n]);
        assert(n < body.len());
        assert(body.take(n) =~= section);
        if n + 1 < body.len() {
            assert(body.last() == line[body.len() - 1]);
        }
    }
}

/// The first colon of a text, or its end.
proof fn lemma_colon(body: Seq<char>, from: int)
    requires
        0 <= from <= body.len(),
    ensures
        from <= lines::colon_at(body, from) <= body.len(),
        forall|i: int| from <= i < lines::colon_at(body, from) ==> #[trigger] body[i] != ':',
        lines::colon_at(body, from) < body.len() ==> body[lines::colon_at(body, from)] == ':',
    decreases body.len() - from,
{
    if from < body.len() && body[from] != ':' {
        lemma_colon(body, from + 1);
    }
}

/// A line opens a top-level entry exactly if it starts with no blank, tab, number sign or dash,
/// and has a colon with something other than white space before it and no colon before that.
pub proof fn entry_on_its_characters(line: Seq<char>)
    ensures
        lines::opens_entry(line) <==> {
            &&& line.len() > 0
            &&& line[0] != ' ' && line[0] != '\t' && line[0] != '#' && line[0] != '-'
            &&& exists|c: int, j: int|
                0 <= j < c < line.len() && #[trigger] line[c] == ':' && !lines::white_space(
                    #[trigger] line[j],
                ) && forall|i: int| 0 <= i < c ==> line[i] != ':'
        },
{
    let body = lines::line_body(line);
    lemma_body(line);
    lemma_colon(body, 0);
    let c = lines::colon_at(body, 0);
    if lines::opens_entry(line) {
        let j = choose|j: int| 0 <= j < c && !lines::white_space(#[trigger] body.take(c)[j]);
        assert(body.take(c)[j] == line[j]);
        assert(line[c] == body[c]);
        assert forall|i: int| 0 <= i < c implies line[i] != ':' by {
            assert(line[i] == body[i]);
        }
    }
    if exists|c: int, j: int|
        0 <= j < c < line.len() && #[trigger] line[c] == ':' && !lines::white_space(
            #[trigger] line[j],
        ) && forall|i: int| 0 <= i < c ==> line[i] != ':' {
        let (d, j) = choose|c: int, j: int|
            0 <= j < c < line.len() && #[trigger] line[c] == ':' && !lines::white_space(
                #[trigger] line[j],
            ) && forall|i: int| 0 <= i < c ==> line[i] != ':';
        assert(d < body.len());
        assert(body[d] == ':');
        if c < d {
            assert(line[c] == body[c]);
        }
        assert(c == d);
        assert(body.take(c)[j] == line[j]);
        assert(body[0] == line[0]);
    }
}

} // verus!

//! What holds of merging as a whole: what it keeps, what can be read back, and that doing it
//! twice is doing it once.

use vstd::prelude::*;
use crate::lines;
use crate::merge;
use crate::sections;

verus! {

/// The text of `section` in `text`: from the line that opens it up to the next top-level entry.
pub open spec fn section_text(text: Seq<char>, section: Seq<char>) -> Seq<char> {
    let ls = lines::lines(text);
    ls.subrange(
        sections::section_start(ls, section),
        sections::section_end(ls, section),
    ).flatten()
}

/// Whether `content` is one whole section: its first line opens `section`, no other line opens
/// a top-level entry, and it ends with a line feed.
pub open spec fn is_section_block(content: Seq<char>, section: Seq<char>) -> bool {
    &&& content.len() > 0
    &&& content.last() == '\n'
    &&& lines::opens_section(lines::lines(content)[0], section)
    &&& forall|i: int|
        1 <= i < lines::lines(content).len() ==> !lines::opens_entry(
            #[trigger] lines::lines(content)[i],
        )
}

/// Whether each of the three contents is one whole section of its name.
pub open spec fn are_section_blocks(content: Seq<Seq<char>>) -> bool {
    &&& content.len() == 3
    &&& forall|k: int|
        0 <= k < 3 ==> is_section_block(#[trigger] content[k], sections::section_names()[k])
}

/// Whether there are three contents, each with something in it and a line feed at its end.
pub open spec fn are_closed(content: Seq<Seq<char>>) -> bool {
    &&& content.len() == 3
    &&& forall|k: int| 0 <= k < 3 ==> (#[trigger] content[k]).len() > 0 && content[k].last() == '\n'
}

/// Whether no line of `text` opens `section`.
pub open spec fn is_quiet(text: Seq<char>, section: Seq<char>) -> bool {
    forall|i: int|
        0 <= i < lines::lines(text).len() ==> !lines::opens_section(
            #[trigger] lines::lines(text)[i],
            section,
        )
}

/// Whether the content of section `k` can be told from the others: it is one whole section, and
/// each of the others starts with a top-level entry and does not open section `k`.
pub open spec fn stands_apart(content: Seq<Seq<char>>, k: int) -> bool {
    &&& is_section_block(content[k], sections::section_names()[k])
    &&& forall|m: int|
        0 <= m < 3 && m != k ==> lines::opens_entry(lines::lines(#[trigger] content[m])[0])
            && is_quiet(content[m], sections::section_names()[k])
}

/// Whether a text stops where a line stops.
pub open spec fn is_closed(text: Seq<char>) -> bool {
    text.len() == 0 || text.last() == '\n'
}

/// The first line of a text stays its first line when more text follows, if a line feed is in
/// it.
proof fn lemma_line_len_extends(a: Seq<char>, b: Seq<char>)
    requires
        a.len() > 0,
        line_closed(a),
    ensures
        lines::line_len(a + b) == lines::line_len(a),
    decreases a.len(),
{
    assert((a + b)[0] == a[0]);
    if a[0] != '\n' {
        let n = lines::line_len(a);
        lines::lemma_line_len(a);
        lines::lemma_line_len(a.drop_first());
        assert((a + b).drop_first() =~= a.drop_first() + b);
        assert(a.drop_first()[n - 2] == a[n - 1]);
        lemma_line_len_extends(a.drop_first(), b);
    }
}

/// Whether the first line of `text` ends with a line feed.
spec fn line_closed(text: Seq<char>) -> bool {
    text.len() > 0 && text[lines::line_len(text) - 1] == '\n'
}

/// In a text that ends with a line feed the first line does too.
proof fn lemma_first_line_closed(text: Seq<char>)
    requires
        text.len() > 0,
        text.last() == '\n',
    ensures
        line_closed(text),
    decreases text.len(),
{
    if text[0] != '\n' {
        lemma_first_line_closed(text.drop_first());
        lines::lemma_line_len(text.drop_first());
        assert(text.drop_first()[lines::line_len(text.drop_first()) - 1]
            == text[lines::line_len(text) - 1]);
    }
}

/// The lines of two texts in a row, where the first stops at the end of a line.
pub proof fn lines_of_concatenation(a: Seq<char>, b: Seq<char>)
    requires
        is_closed(a),
    ensures
        lines::lines(a + b) == lines::lines(a) + lines::lines(b),
    decreases a.len(),
{
    if a.len() == 0 {
        assert(a + b =~= b);
        assert(lines::lines(a) + lines::lines(b) =~= lines::lines(b));
    } else {
        let n = lines::line_len(a) as int;
        lines::lemma_line_len(a);
        lemma_first_line_closed(a);
        lemma_line_len_extends(a, b);
        let rest = a.skip(n);
        assert(is_closed(rest)) by {
            if rest.len() > 0 {
                assert(rest.last() == a.last());
            }
        }
        lines_of_concatenation(rest, b);
        assert((a + b).take(n) =~= a.take(n));
        assert((a + b).skip(n) =~= rest + b);
        assert(lines::lines(a + b) =~= lines::lines(a) + lines::lines(b));
    }
}

/// The search for a header in lines of which the first ones do not open the section.
proof fn lemma_header_after(
    before: Seq<Seq<char>>,
    rest: Seq<Seq<char>>,
    from: int,
    section: Seq<char>,
)
    requires
        0 <= from <= before.len(),
        forall|i: int|
            0 <= i < before.len() ==> !lines::opens_section(#[trigger] before[i], section),
        rest.len() > 0,
        lines::opens_section(rest[0], section),
    ensures
        sections::next_header(before + rest, from, section) == before.len(),
    decreases before.len() - from,
{
    let all = before + rest;
    if from < before.len() {
        assert(all[from] == before[from]);
        lemma_header_after(before, rest, from + 1, section);
    } else {
        assert(all[from] == rest[0]);
    }
}

/// The search for a top-level entry in lines of which some do not open one.
proof fn lemma_entry_after(all: Seq<Seq<char>>, from: int, to: int)
    requires
        0 <= from <= to <= all.len(),
        forall|i: int| from <= i < to ==> !lines::opens_entry(#[trigger] all[i]),
        to == all.len() || lines::opens_entry(all[to]),
    ensures
        sections::next_entry(all, from) == to,
    decreases to - from,
{
    if from < to {
        lemma_entry_after(all, from + 1, to);
    }
}

/// A section block between text that does not open the section and text that starts with a
/// top-level entry is what the section reads as.
proof fn lemma_block_reads_back(
    before: Seq<char>,
    block: Seq<char>,
    after: Seq<char>,
    section: Seq<char>,
)
    requires
        is_closed(before),
        forall|i: int|
            0 <= i < lines::lines(before).len() ==> !lines::opens_section(
                #[trigger] lines::lines(before)[i],
                section,
            ),
        is_section_block(block, section),
        after.len() == 0 || lines::opens_entry(lines::lines(after)[0]),
    ensures
        sections::has_section(lines::lines(before + block + after), section),
        section_text(before + block + after, section) == block,
        sections::section_start(lines::lines(before + block + after), section) == lines::lines(
            before,
        ).len(),
        sections::section_end(lines::lines(before + block + after), section) == lines::lines(
            before,
        ).len() + lines::lines(block).len(),
{
    let a = lines::lines(before);
    let b = lines::lines(block);
    let c = lines::lines(after);
    let text = before + block + after;
    assert((before + block).last() == block.last());
    lines_of_concatenation(before, block);
    lines_of_concatenation(before + block, after);
    let all = lines::lines(text);
    assert(all == a + b + c);
    assert(all =~= a + (b + c));
    lines::lemma_line_len(block);
    assert(b.len() > 0);
    assert((b + c)[0] == b[0]);
    lemma_header_after(a, b + c, 0, section);
    let start = a.len() as int;
    let end = (a.len() + b.len()) as int;
    assert forall|i: int| start + 1 <= i < end implies !lines::opens_entry(#[trigger] all[i]) by {
        assert(all[i] == b[i - start]);
    }
    if after.len() > 0 {
        lines::lemma_line_len(after);
        assert(all[end] == c[0]);
    } else {
        assert(c.len() == 0);
    }
    lemma_entry_after(all, start + 1, end);
    assert(all.subrange(start, end) =~= b);
    lines::lines_make_up_text(block);
}

/// Each line is one line, and only the last can lack its line feed.
proof fn lemma_line_shape(text: Seq<char>, i: int)
    requires
        0 <= i < lines::lines(text).len(),
    ensures
        lines::lines(lines::lines(text)[i]) == seq![lines::lines(text)[i]],
        lines::lines(text)[i].len() > 0,
        i + 1 < lines::lines(text).len() ==> lines::lines(text)[i].last() == '\n',
    decreases text.len(),
{
    lines::lemma_line_len(text);
    let n = lines::line_len(text) as int;
    let first = text.take(n);
    if i == 0 {
        lemma_first_line_alone(text);
        assert(first.skip(n) =~= Seq::<char>::empty());
        assert(first.take(n) =~= first);
        assert(lines::lines(Seq::<char>::empty()) =~= Seq::<Seq<char>>::empty());
        assert(lines::lines(first) =~= seq![first]);
        if lines::lines(text).len() > 1 && first.last() != '\n' {
            lemma_unclosed_is_whole(text);
            assert(text.skip(n) =~= Seq::<char>::empty());
        }
    } else {
        lemma_line_shape(text.skip(n), i - 1);
        assert(lines::lines(text)[i] == lines::lines(text.skip(n))[i - 1]);
    }
}

/// The first line of a text is its own first line.
proof fn lemma_first_line_alone(text: Seq<char>)
    requires
        text.len() > 0,
    ensures
        lines::line_len(text.take(lines::line_len(text) as int)) == lines::line_len(text),
    decreases text.len(),
{
    lines::lemma_line_len(text);
    let n = lines::line_len(text) as int;
    assert(text.take(n)[0] == text[0]);
    if text[0] != '\n' {
        let rest = text.drop_first();
        assert(text.take(n).drop_first() =~= rest.take(n - 1));
        if rest.len() > 0 {
            lemma_first_line_alone(rest);
        } else {
            assert(rest.take(n - 1) =~= rest);
        }
    }
}

/// A first line without a line feed is the whole text.
proof fn lemma_unclosed_is_whole(text: Seq<char>)
    requires
        text.len() > 0,
        text[lines::line_len(text) - 1] != '\n',
    ensures
        lines::line_len(text) == text.len(),
    decreases text.len(),
{
    lines::lemma_line_len(text);
    if text[0] != '\n' {
        let rest = text.drop_first();
        if rest.len() > 0 {
            lines::lemma_line_len(rest);
            assert(rest[lines::line_len(rest) - 1] == text[lines::line_len(text) - 1]);
            lemma_unclosed_is_whole(rest);
        }
    }
}

/// What the sections that `lines` lacks add at the end, section by section.
spec fn tail(lines: Seq<Seq<char>>, content: Seq<Seq<char>>, k: int) -> Seq<Seq<char>>
    decreases k,
{
    if k <= 0 {
        Seq::empty()
    } else if sections::has_section(lines, sections::section_names()[k - 1]) {
        tail(lines, content, k - 1)
    } else {
        tail(lines, content, k - 1).push(content[k - 1])
    }
}

/// What stands for the lines, brought to the end of a line.
spec fn ready(lines: Seq<Seq<char>>, content: Seq<Seq<char>>) -> Seq<Seq<char>> {
    let out = merge::merged_lines(lines, content);
    if lines.len() == 0 {
        seq![seq!['\n']]
    } else if is_closed(out.last()) {
        out
    } else {
        out.drop_last().push(out.last().push('\n'))
    }
}

/// What stands for the lines themselves, brought to the end of a line if a section follows.
spec fn base(lines: Seq<Seq<char>>, content: Seq<Seq<char>>) -> Seq<Seq<char>> {
    if tail(lines, content, 3).len() == 0 {
        merge::merged_lines(lines, content)
    } else {
        ready(lines, content)
    }
}

/// The pieces of which the merged text is made.
spec fn pieces(lines: Seq<Seq<char>>, content: Seq<Seq<char>>) -> Seq<Seq<char>> {
    base(lines, content) + tail(lines, content, 3)
}

/// What is known of the piece that stands for one line.
proof fn lemma_merged_line(current: Seq<char>, content: Seq<Seq<char>>, i: int)
    requires
        are_closed(content),
        0 <= i < lines::lines(current).len(),
    ensures
        ({
            let ls = lines::lines(current);
            let piece = merge::merged_line(ls, content, i);
            &&& i + 1 < ls.len() ==> is_closed(piece)
            &&& i == 0 ==> piece.len() > 0
            &&& !is_closed(piece) ==> piece == ls[i] && lines::lines(piece) == seq![ls[i]]
        }),
{
    let ls = lines::lines(current);
    lemma_line_shape(current, i);
    assert forall|k: int| 0 <= k < 3 implies 0 <= sections::section_start(
        ls,
        #[trigger] sections::section_names()[k],
    ) by {
        sections::lemma_next_header(ls, 0, sections::section_names()[k]);
    }
    assert(sections::section_names()[0] == sections::section_names()[0]);
    assert(sections::section_names()[1] == sections::section_names()[1]);
    assert(sections::section_names()[2] == sections::section_names()[2]);
    assert(content[0].len() > 0 && content[1].len() > 0 && content[2].len() > 0);
}

/// Pieces that stop at the end of a line make up a text that does.
proof fn lemma_closed_flatten(parts: Seq<Seq<char>>)
    requires
        forall|i: int| 0 <= i < parts.len() ==> is_closed(#[trigger] parts[i]),
    ensures
        is_closed(parts.flatten()),
    decreases parts.len(),
{
    if parts.len() > 0 {
        let rest = parts.drop_last();
        lemma_closed_flatten(rest);
        rest.lemma_flatten_push(parts.last());
        assert(parts =~= rest.push(parts.last()));
        if parts.last().len() > 0 {
            assert((rest.flatten() + parts.last()).last() == parts.last().last());
        } else {
            assert(rest.flatten() + parts.last() =~= rest.flatten());
        }
    }
}

/// The merged text is made of its pieces.
proof fn lemma_pieces(current: Seq<char>, content: Seq<Seq<char>>, k: int)
    requires
        are_closed(content),
        0 <= k <= 3,
    ensures
        ({
            let ls = lines::lines(current);
            let out = merge::merged_lines(ls, content);
            let grown = merge::with_missing(out.flatten(), ls, content, k);
            if tail(ls, content, k).len() == 0 {
                grown == out.flatten()
            } else {
                &&& grown == ready(ls, content).flatten() + tail(ls, content, k).flatten()
                &&& grown.len() > 0
                &&& grown.last() == '\n'
            }
        }),
    decreases k,
{
    let ls = lines::lines(current);
    let out = merge::merged_lines(ls, content);
    if k > 0 {
        lemma_pieces(current, content, k - 1);
        lemma_ready(current, content);
        let before = merge::with_missing(out.flatten(), ls, content, k - 1);
        let block = content[k - 1];
        if !sections::has_section(ls, sections::section_names()[k - 1]) {
            tail(ls, content, k - 1).lemma_flatten_push(block);
            let grown = merge::with_missing(out.flatten(), ls, content, k);
            if tail(ls, content, k - 1).len() == 0 {
                assert(tail(ls, content, k - 1) =~= Seq::<Seq<char>>::empty());
                assert(tail(ls, content, k).flatten() =~= block);
                assert(grown =~= ready(ls, content).flatten() + block);
            } else {
                assert(grown =~= ready(ls, content).flatten() + (tail(
                    ls,
                    content,
                    k - 1,
                ).flatten() + block));
            }
            assert(grown.last() == block.last());
        }
    }
}

/// The lines brought to the end of a line are what a block goes behind.
proof fn lemma_ready(current: Seq<char>, content: Seq<Seq<char>>)
    requires
        are_closed(content),
    ensures
        ({
            let ls = lines::lines(current);
            let text = merge::merged_lines(ls, content).flatten();
            &&& forall|block: Seq<char>|
                #[trigger] merge::with_block(text, block) == ready(ls, content).flatten() + block
            &&& forall|i: int|
                0 <= i < ready(ls, content).len() ==> is_closed(#[trigger] ready(ls, content)[i])
            &&& ready(ls, content).len() >= ls.len()
        }),
{
    let ls = lines::lines(current);
    let out = merge::merged_lines(ls, content);
    let text = out.flatten();
    let r = ready(ls, content);
    assert forall|i: int| 0 <= i < out.len() - 1 implies is_closed(#[trigger] out[i]) by {
        lemma_merged_line(current, content, i);
    }
    if ls.len() == 0 {
        r.lemma_flatten_one_element();
        assert(text =~= Seq::<char>::empty());
        assert(text.push('\n') =~= seq!['\n']);
    } else if is_closed(out.last()) {
        lemma_closed_flatten(out);
        lemma_merged_line(current, content, 0);
        assert(out.flatten() == out[0] + out.drop_first().flatten());
        assert(text.len() > 0);
    } else {
        let init = out.drop_last();
        init.lemma_flatten_push(out.last());
        init.lemma_flatten_push(out.last().push('\n'));
        assert(out =~= init.push(out.last()));
        assert(text.last() == out.last().last());
        assert(text.push('\n') =~= init.flatten() + out.last().push('\n'));
    }
}

/// Every piece of the tail is the content of a section that is lacking.
proof fn lemma_tail(lines: Seq<Seq<char>>, content: Seq<Seq<char>>, k: int)
    requires
        are_closed(content),
        0 <= k <= 3,
    ensures
        forall|i: int|
            0 <= i < tail(lines, content, k).len() ==> {
                let piece = #[trigger] tail(lines, content, k)[i];
                exists|m: int|
                    0 <= m < k && piece == #[trigger] content[m] && !sections::has_section(
                        lines,
                        sections::section_names()[m],
                    )
            },
    decreases k,
{
    if k > 0 {
        lemma_tail(lines, content, k - 1);
        assert forall|i: int| 0 <= i < tail(lines, content, k).len() implies {
            let piece = #[trigger] tail(lines, content, k)[i];
            exists|m: int|
                0 <= m < k && piece == #[trigger] content[m] && !sections::has_section(
                    lines,
                    sections::section_names()[m],
                )
        } by {
            if i < tail(lines, content, k - 1).len() {
                let piece = tail(lines, content, k - 1)[i];
                let m = choose|m: int|
                    0 <= m < k - 1 && piece == #[trigger] content[m] && !sections::has_section(
                        lines,
                        sections::section_names()[m],
                    );
                assert(tail(lines, content, k)[i] == content[m]);
            } else {
                assert(tail(lines, content, k)[i] == content[k - 1]);
            }
        }
    }
}

/// Pieces of which no line opens a section make up a text of which none does.
proof fn lemma_quiet_flatten(parts: Seq<Seq<char>>, section: Seq<char>)
    requires
        forall|i: int|
            0 <= i < parts.len() ==> is_closed(#[trigger] parts[i]) && is_quiet(parts[i], section),
    ensures
        is_closed(parts.flatten()),
        is_quiet(parts.flatten(), section),
    decreases parts.len(),
{
    lemma_closed_flatten(parts);
    if parts.len() > 0 {
        let rest = parts.drop_last();
        lemma_closed_flatten(rest);
        lemma_quiet_flatten(rest, section);
        rest.lemma_flatten_push(parts.last());
        assert(parts =~= rest.push(parts.last()));
        lines_of_concatenation(rest.flatten(), parts.last());
        let a = lines::lines(rest.flatten());
        let b = lines::lines(parts.last());
        assert forall|i: int| 0 <= i < (a + b).len() implies !lines::opens_section(
            #[trigger] (a + b)[i],
            section,
        ) by {
            if i < a.len() {
                assert((a + b)[i] == a[i]);
            } else {
                assert((a + b)[i] == b[i - a.len()]);
                assert(is_quiet(parts[parts.len() - 1], section));
            }
        }
    }
}

/// Whole sections are closed, and each can be told from the others.
proof fn lemma_blocks_stand_apart(content: Seq<Seq<char>>, k: int)
    requires
        are_section_blocks(content),
        0 <= k < 3,
    ensures
        are_closed(content),
        stands_apart(content, k),
{
    let names = sections::section_names();
    let name = names[k];
    sections::lemma_section_names();
    assert forall|m: int| 0 <= m < 3 implies (#[trigger] content[m]).len() > 0 && content[m].last()
        == '\n' && lines::opens_entry(lines::lines(content[m])[0]) && (m != k ==> is_quiet(
        content[m],
        name,
    )) by {
        let ls = lines::lines(content[m]);
        assert(is_section_block(content[m], names[m]));
        sections::header_opens_entry(ls[0], names[m]);
        if m != k {
            assert forall|i: int| 0 <= i < ls.len() implies !lines::opens_section(
                #[trigger] ls[i],
                name,
            ) by {
                if lines::opens_section(ls[i], name) {
                    sections::header_opens_entry(ls[i], name);
                    if i == 0 {
                        sections::header_names_one_section(ls[i], names[m], name);
                    }
                }
            }
        }
    }
    assert(is_section_block(content[k], name));
}

/// A line feed behind a line that has none changes nothing about what it opens.
proof fn lemma_line_feed(line: Seq<char>)
    requires
        lines::lines(line) == seq![line],
        !is_closed(line),
    ensures
        lines::lines(line.push('\n')) == seq![line.push('\n')],
        lines::line_body(line.push('\n')) == lines::line_body(line),
{
    assert(line.push('\n').drop_last() =~= line);
    lines::lemma_line_len(line);
    let n = lines::line_len(line) as int;
    assert(line == lines::lines(line)[0]);
    assert(line.take(n).len() == line.len());
    lemma_whole_line(line);
    let longer = line.push('\n');
    assert(longer.take(longer.len() as int) =~= longer);
    assert(longer.skip(longer.len() as int) =~= Seq::<char>::empty());
    assert(lines::lines(Seq::<char>::empty()) =~= Seq::<Seq<char>>::empty());
    assert(lines::lines(longer) =~= seq![longer]);
}

/// A line that reaches to the end of its text without a line feed is closed by one.
proof fn lemma_whole_line(line: Seq<char>)
    requires
        lines::line_len(line) == line.len(),
        !is_closed(line),
    ensures
        lines::line_len(line.push('\n')) == line.len() + 1,
    decreases line.len(),
{
    let longer = line.push('\n');
    assert(longer[0] == line[0]);
    lines::lemma_line_len(line.drop_first());
    if line[0] == '\n' {
        assert(line.len() == 1);
        assert(line.last() == '\n');
    } else {
        assert(longer.drop_first() =~= line.drop_first().push('\n'));
        if line.len() > 1 {
            assert(line.drop_first().last() == line.last());
            lemma_whole_line(line.drop_first());
        } else {
            let feed = line.drop_first().push('\n');
            assert(feed[0] == '\n');
            assert(lines::line_len(feed) == 1);
        }
    }
}

/// No piece that stands for a line before section `k` opens it.
proof fn lemma_base_quiet(current: Seq<char>, content: Seq<Seq<char>>, k: int, i: int)
    requires
        0 <= k < 3,
        are_closed(content),
        stands_apart(content, k),
        0 <= i < base(lines::lines(current), content).len(),
        i < sections::section_start(lines::lines(current), sections::section_names()[k])
            || lines::lines(current).len() == 0,
    ensures
        is_quiet(base(lines::lines(current), content)[i], sections::section_names()[k]),
{
    let ls = lines::lines(current);
    let name = sections::section_names()[k];
    let piece = base(ls, content)[i];
    sections::lemma_section_names();
    sections::lemma_next_header(ls, 0, name);
    if ls.len() == 0 {
        let feed = seq!['\n'];
        assert(piece == feed);
        assert(lines::line_len(feed) == 1);
        assert(feed.take(1) =~= feed);
        assert(feed.skip(1) =~= Seq::<char>::empty());
        assert(lines::lines(Seq::<char>::empty()) =~= Seq::<Seq<char>>::empty());
        assert(lines::lines(feed) =~= seq![feed]);
        assert(feed.drop_last() =~= Seq::<char>::empty());
        assert(lines::line_body(feed) == lines::line_body(Seq::<char>::empty()));
        assert(lines::line_body(feed).len() == 0);
    } else {
        let out = merge::merged_line(ls, content, i);
        lemma_merged_line(current, content, i);
        lemma_line_shape(current, i);
        if piece == out {
            if out == ls[i] {
            } else if out.len() == 0 {
                assert(lines::lines(out) =~= Seq::<Seq<char>>::empty());
            } else if merge::begins(ls, 0, i) {
                assert(is_quiet(content[0], name));
            } else if merge::begins(ls, 1, i) {
                assert(is_quiet(content[1], name));
            } else {
                assert(is_quiet(content[2], name));
            }
        } else {
            assert(i == ls.len() - 1);
            assert(!is_closed(out));
            lemma_line_feed(out);
        }
    }
}

/// What follows the pieces up to `from` starts with a top-level entry, where the first of the
/// other pieces with anything in it does.
proof fn lemma_entry_follows(parts: Seq<Seq<char>>, from: int, to: int)
    requires
        0 <= from <= to <= parts.len(),
        forall|i: int| from <= i < to ==> (#[trigger] parts[i]).len() == 0,
        to < parts.len() ==> parts[to].len() > 0 && lines::opens_entry(lines::lines(parts[to])[0]),
        to + 1 < parts.len() ==> is_closed(parts[to]),
    ensures
        ({
            let after = parts.skip(from).flatten();
            after.len() == 0 || lines::opens_entry(lines::lines(after)[0])
        }),
    decreases to - from,
{
    if from < to {
        lemma_entry_follows(parts, from + 1, to);
        assert(parts.skip(from).drop_first() =~= parts.skip(from + 1));
        assert(parts.skip(from).flatten() =~= parts.skip(from + 1).flatten());
    } else if from < parts.len() {
        let first = parts[from];
        let rest = parts.skip(from + 1);
        assert(parts.skip(from).drop_first() =~= rest);
        assert(parts.skip(from).flatten() == first + rest.flatten());
        lines::lemma_line_len(first);
        if from + 1 < parts.len() {
            lines_of_concatenation(first, rest.flatten());
        } else {
            assert(rest =~= Seq::<Seq<char>>::empty());
            assert(first + rest.flatten() =~= first);
        }
    }
}

/// Where section `k` that `lines` lacks stands in the tail.
spec fn tail_place(lines: Seq<Seq<char>>, content: Seq<Seq<char>>, k: int) -> int {
    tail(lines, content, k).len() as int
}

/// The tail up to a section that is lacking is followed by the content of that section.
proof fn lemma_tail_grows(lines: Seq<Seq<char>>, content: Seq<Seq<char>>, k: int, m: int)
    requires
        0 <= k <= m <= 3,
    ensures
        tail(lines, content, k).len() <= tail(lines, content, m).len(),
        tail(lines, content, m).take(tail_place(lines, content, k)) == tail(lines, content, k),
    decreases m - k,
{
    if k < m {
        lemma_tail_grows(lines, content, k, m - 1);
        assert(tail(lines, content, m).take(tail_place(lines, content, k)) =~= tail(
            lines,
            content,
            m - 1,
        ).take(tail_place(lines, content, k)));
    } else {
        assert(tail(lines, content, k).take(tail_place(lines, content, k)) =~= tail(
            lines,
            content,
            k,
        ));
    }
}

/// Which piece of the merged text is the content of section `k`.
spec fn place(lines: Seq<Seq<char>>, content: Seq<Seq<char>>, k: int) -> int {
    if sections::has_section(lines, sections::section_names()[k]) {
        sections::section_start(lines, sections::section_names()[k])
    } else {
        base(lines, content).len() + tail_place(lines, content, k)
    }
}

/// The piece of the merged text at the place of section `k` is its content.
proof fn lemma_place(current: Seq<char>, content: Seq<Seq<char>>, k: int)
    requires
        0 <= k < 3,
        are_closed(content),
    ensures
        ({
            let all = pieces(lines::lines(current), content);
            let p = place(lines::lines(current), content, k);
            0 <= p < all.len() && all[p] == content[k]
        }),
{
    let ls = lines::lines(current);
    let names = sections::section_names();
    let name = names[k];
    let all = pieces(ls, content);
    let b = base(ls, content);
    let e = tail(ls, content, 3);
    let out = merge::merged_lines(ls, content);
    sections::lemma_section_names();
    sections::lemma_next_header(ls, 0, name);
    if sections::has_section(ls, name) {
        let p = sections::section_start(ls, name);
        assert(merge::begins(ls, k, p));
        assert forall|m: int| 0 <= m < 3 && m != k implies !merge::begins(ls, m, p) by {
            if sections::section_start(ls, names[m]) == p {
                sections::lemma_next_header(ls, 0, names[m]);
                sections::header_names_one_section(ls[p], names[m], name);
            }
        }
        assert(out[p] == content[k]);
        assert(content[k].last() == '\n');
        assert(all[p] == b[p]);
    } else {
        let p = (b.len() + tail_place(ls, content, k)) as int;
        lemma_tail_grows(ls, content, k, 3);
        lemma_tail_grows(ls, content, k + 1, 3);
        assert(e[tail_place(ls, content, k)] == e.take(tail_place(ls, content, k + 1))[tail_place(
            ls,
            content,
            k,
        )]);
        assert(all[p] == content[k]);
    }
}

/// The piece of the merged text that is the content of section `k`, and the next piece that
/// has anything in it, which opens a top-level entry.
proof fn lemma_places(current: Seq<char>, content: Seq<Seq<char>>, k: int) -> (r: (int, int))
    requires
        0 <= k < 3,
        are_closed(content),
        stands_apart(content, k),
    ensures
        ({
            let all = pieces(lines::lines(current), content);
            let (p, t) = r;
            &&& p == place(lines::lines(current), content, k)
            &&& 0 <= p < t <= all.len()
            &&& all[p] == content[k]
            &&& forall|i: int|
                0 <= i < p ==> is_closed(#[trigger] all[i]) && is_quiet(
                    all[i],
                    sections::section_names()[k],
                )
            &&& forall|i: int| p < i < t ==> (#[trigger] all[i]).len() == 0
            &&& t < all.len() ==> all[t].len() > 0 && lines::opens_entry(lines::lines(all[t])[0])
            &&& t + 1 < all.len() ==> is_closed(all[t])
        }),
{
    let ls = lines::lines(current);
    let names = sections::section_names();
    let name = names[k];
    let all = pieces(ls, content);
    let b = base(ls, content);
    let e = tail(ls, content, 3);
    let out = merge::merged_lines(ls, content);
    sections::lemma_section_names();
    sections::lemma_next_header(ls, 0, name);
    lemma_place(current, content, k);
    lemma_ready(current, content);
    lemma_tail(ls, content, 3);
    assert forall|i: int| 0 <= i < b.len() && (e.len() > 0 || i + 1 < b.len()) implies is_closed(
        #[trigger] b[i],
    ) by {
        if e.len() > 0 {
            assert(b[i] == ready(ls, content)[i]);
        } else {
            lemma_merged_line(current, content, i);
        }
    }
    assert forall|i: int| b.len() <= i < all.len() implies {
        &&& is_closed(#[trigger] all[i])
        &&& all[i].len() > 0
        &&& lines::opens_entry(lines::lines(all[i])[0])
        &&& exists|m: int|
            0 <= m < 3 && all[i] == #[trigger] content[m] && !sections::has_section(ls, names[m])
    } by {
        let piece = e[i - b.len()];
        assert(all[i] == piece);
        let m = choose|m: int|
            0 <= m < 3 && piece == #[trigger] content[m] && !sections::has_section(ls, names[m]);
        if m == k {
            sections::header_opens_entry(lines::lines(piece)[0], names[m]);
        }
    }
    if sections::has_section(ls, name) {
        let p = sections::section_start(ls, name);
        let t = sections::section_end(ls, name);
        sections::lemma_next_entry(ls, p + 1);
        assert(b.len() == ls.len());
        assert forall|m: int| 0 <= m < 3 && m != k && sections::has_section(
            ls,
            #[trigger] names[m],
        ) implies (t <= sections::section_start(ls, names[m]) || sections::section_end(
            ls,
            names[m],
        ) <= p) by {
            merge::sections_are_disjoint(ls, k, m);
            merge::sections_are_disjoint(ls, m, k);
        }
        assert forall|m: int| 0 <= m < 3 implies 0 <= #[trigger] sections::section_start(
            ls,
            names[m],
        ) <= ls.len() by {
            sections::lemma_next_header(ls, 0, names[m]);
        }
        assert(names[0] == names[0] && names[1] == names[1] && names[2] == names[2]);
        assert(0 <= sections::section_start(ls, names[0]) && 0 <= sections::section_start(
            ls,
            names[1],
        ) && 0 <= sections::section_start(ls, names[2]));
        assert forall|i: int| 0 <= i < p implies is_closed(#[trigger] all[i]) && is_quiet(
            all[i],
            name,
        ) by {
            assert(all[i] == b[i]);
            lemma_base_quiet(current, content, k, i);
        }
        assert forall|i: int| p < i < t implies (#[trigger] all[i]).len() == 0 by {
            assert(all[i] == b[i]);
            assert(merge::continues(ls, k, i));
            assert forall|m: int| 0 <= m < 3 implies !merge::begins(ls, m, i) by {
                let start = sections::section_start(ls, names[m]);
                if start == i {
                    sections::lemma_next_entry(ls, start + 1);
                }
            }
            assert(out[i].len() == 0);
        }
        if t < ls.len() {
            assert(all[t] == b[t]);
            lemma_merged_line(current, content, t);
            lemma_line_shape(current, t);
            lemma_piece_at_end(current, content, k);
            if b[t] != out[t] {
                lemma_line_feed(out[t]);
            }
        }
        (p, t)
    } else {
        let p = (b.len() + tail_place(ls, content, k)) as int;
        lemma_tail_grows(ls, content, k, 3);
        assert forall|i: int| 0 <= i < p implies is_closed(#[trigger] all[i]) && is_quiet(
            all[i],
            name,
        ) by {
            if i < b.len() {
                assert(all[i] == b[i]);
                lemma_base_quiet(current, content, k, i);
            } else {
                let piece = tail(ls, content, k)[i - b.len()];
                assert(e.take(tail_place(ls, content, k))[i - b.len()] == piece);
                lemma_tail(ls, content, k);
                let m = choose|m: int|
                    0 <= m < k && piece == #[trigger] content[m] && !sections::has_section(
                        ls,
                        names[m],
                    );
            }
        }
        (p, p + 1)
    }
}

/// What stands for the line at which section `k` is over opens a top-level entry.
proof fn lemma_piece_at_end(current: Seq<char>, content: Seq<Seq<char>>, k: int)
    requires
        0 <= k < 3,
        are_closed(content),
        stands_apart(content, k),
        sections::has_section(lines::lines(current), sections::section_names()[k]),
        sections::section_end(lines::lines(current), sections::section_names()[k])
            < lines::lines(current).len(),
    ensures
        ({
            let ls = lines::lines(current);
            let t = sections::section_end(ls, sections::section_names()[k]);
            let piece = merge::merged_line(ls, content, t);
            &&& piece.len() > 0
            &&& lines::opens_entry(lines::lines(piece)[0])
        }),
{
    let ls = lines::lines(current);
    let names = sections::section_names();
    let p = sections::section_start(ls, names[k]);
    let t = sections::section_end(ls, names[k]);
    sections::lemma_section_names();
    sections::lemma_next_header(ls, 0, names[k]);
    sections::lemma_next_entry(ls, p + 1);
    lemma_line_shape(current, t);
    assert forall|m: int| 0 <= m < 3 implies !merge::continues(ls, m, t) by {
        let start = sections::section_start(ls, names[m]);
        sections::lemma_next_header(ls, 0, names[m]);
        if start < t {
            sections::lemma_next_entry(ls, start + 1);
        }
    }
    assert forall|m: int| 0 <= m < 3 implies {
        &&& (#[trigger] content[m]).len() > 0
        &&& lines::opens_entry(lines::lines(content[m])[0])
    } by {
        if m == k {
            sections::header_opens_entry(lines::lines(content[m])[0], names[m]);
        }
    }
    assert(content[0].len() > 0 && content[1].len() > 0 && content[2].len() > 0);
}

/// The merged text is its pieces in a row, and each of them but the last stops at the end of a
/// line.
proof fn lemma_merged_pieces(current: Seq<char>, content: Seq<Seq<char>>)
    requires
        are_closed(content),
    ensures
        ({
            let all = pieces(lines::lines(current), content);
            &&& merge::merged_text(current, content) == all.flatten()
            &&& forall|i: int| 0 <= i < all.len() - 1 ==> is_closed(#[trigger] all[i])
        }),
{
    let ls = lines::lines(current);
    let all = pieces(ls, content);
    let b = base(ls, content);
    let e = tail(ls, content, 3);
    lemma_pieces(current, content, 3);
    lemma_ready(current, content);
    lemma_tail(ls, content, 3);
    vstd::seq_lib::lemma_flatten_concat(b, e);
    assert(merge::merged_text(current, content) =~= all.flatten()) by {
        if e.len() == 0 {
            assert(e =~= Seq::<Seq<char>>::empty());
        }
    }
    assert forall|i: int| 0 <= i < all.len() - 1 implies is_closed(#[trigger] all[i]) by {
        if i < b.len() {
            if e.len() > 0 {
                assert(all[i] == ready(ls, content)[i]);
            } else {
                lemma_merged_line(current, content, i);
            }
        } else {
            let piece = e[i - b.len()];
            assert(all[i] == piece);
            let m = choose|m: int|
                0 <= m < 3 && piece == #[trigger] content[m] && !sections::has_section(
                    ls,
                    sections::section_names()[m],
                );
            assert(content[m].last() == '\n');
        }
    }
}

/// How many lines the first `i` of `parts` have.
spec fn line_count(parts: Seq<Seq<char>>, i: int) -> int {
    lines::lines(parts.take(i).flatten()).len() as int
}

/// In the merged text section `k` is the lines of its piece.
proof fn lemma_merged_span(current: Seq<char>, content: Seq<Seq<char>>, k: int)
    requires
        0 <= k < 3,
        are_closed(content),
        stands_apart(content, k),
    ensures
        ({
            let merged = merge::merged_text(current, content);
            let all = pieces(lines::lines(current), content);
            let p = place(lines::lines(current), content, k);
            let name = sections::section_names()[k];
            &&& 0 <= p < all.len()
            &&& all[p] == content[k]
            &&& sections::has_section(lines::lines(merged), name)
            &&& section_text(merged, name) == content[k]
            &&& sections::section_start(lines::lines(merged), name) == line_count(all, p)
            &&& sections::section_end(lines::lines(merged), name) == line_count(all, p)
                + lines::lines(content[k]).len()
        }),
{
    let ls = lines::lines(current);
    let name = sections::section_names()[k];
    let all = pieces(ls, content);
    lemma_merged_pieces(current, content);
    let (p, t) = lemma_places(current, content, k);
    let before = all.take(p);
    let after = all.skip(p + 1);
    assert(all =~= before.push(content[k]) + after);
    vstd::seq_lib::lemma_flatten_concat(before.push(content[k]), after);
    before.lemma_flatten_push(content[k]);
    assert forall|i: int| 0 <= i < before.len() implies is_closed(#[trigger] before[i])
        && is_quiet(before[i], name) by {
        assert(before[i] == all[i]);
    }
    lemma_quiet_flatten(before, name);
    lemma_entry_follows(all, p + 1, t);
    lemma_block_reads_back(before.flatten(), content[k], after.flatten(), name);
}

/// Reading a section of the merged text gives back the content that was merged in.
///
/// The content that is read is a whole section: it opens with a line of its own name, opens
/// nothing else at the top level, and ends with a line feed. The other two can be told from it.
pub proof fn merged_section_reads_back(current: Seq<char>, content: Seq<Seq<char>>, k: int)
    requires
        0 <= k < 3,
        are_closed(content),
        stands_apart(content, k),
    ensures
        ({
            let merged = merge::merged_text(current, content);
            let name = sections::section_names()[k];
            &&& sections::has_section(lines::lines(merged), name)
            &&& section_text(merged, name) == content[k]
        }),
{
    lemma_merged_span(current, content, k);
}

/// The lines of the first parts, with those of one more.
proof fn lemma_count_step(parts: Seq<Seq<char>>, i: int)
    requires
        0 <= i < parts.len(),
        forall|j: int| 0 <= j < parts.len() - 1 ==> is_closed(#[trigger] parts[j]),
    ensures
        parts.take(i + 1).flatten() == parts.take(i).flatten() + parts[i],
        lines::lines(parts.take(i + 1).flatten()) == lines::lines(parts.take(i).flatten())
            + lines::lines(parts[i]),
        line_count(parts, i + 1) == line_count(parts, i) + lines::lines(parts[i]).len(),
{
    let head = parts.take(i);
    assert(parts.take(i + 1) =~= head.push(parts[i]));
    head.lemma_flatten_push(parts[i]);
    assert forall|j: int| 0 <= j < head.len() implies is_closed(#[trigger] head[j]) by {
        assert(head[j] == parts[j]);
    }
    lemma_closed_flatten(head);
    lines_of_concatenation(head.flatten(), parts[i]);
}

/// The lines of the first parts come first.
proof fn lemma_count_prefix(parts: Seq<Seq<char>>, i: int, j: int)
    requires
        0 <= i <= j <= parts.len(),
        forall|m: int| 0 <= m < parts.len() - 1 ==> is_closed(#[trigger] parts[m]),
    ensures
        line_count(parts, i) <= line_count(parts, j),
        lines::lines(parts.take(j).flatten()).take(line_count(parts, i)) == lines::lines(
            parts.take(i).flatten(),
        ),
    decreases j - i,
{
    let n = line_count(parts, i);
    let all = lines::lines(parts.take(j).flatten());
    if i < j {
        lemma_count_prefix(parts, i, j - 1);
        lemma_count_step(parts, j - 1);
        let shorter = lines::lines(parts.take(j - 1).flatten());
        assert(all.take(n) =~= shorter.take(n));
    } else {
        assert(all.take(n) =~= all);
    }
}

/// Merging other content makes the same pieces, but for those that are the content.
proof fn lemma_same_pieces(current: Seq<char>, a: Seq<Seq<char>>, b: Seq<Seq<char>>)
    requires
        are_closed(a),
        are_closed(b),
    ensures
        ({
            let ls = lines::lines(current);
            &&& pieces(ls, a).len() == pieces(ls, b).len()
            &&& forall|k: int| 0 <= k < 3 ==> #[trigger] place(ls, a, k) == place(ls, b, k)
            &&& forall|i: int|
                0 <= i < pieces(ls, a).len() && i != place(ls, a, 0) && i != place(ls, a, 1) && i
                    != place(ls, a, 2) ==> #[trigger] pieces(ls, a)[i] == pieces(ls, b)[i]
        }),
{
    let ls = lines::lines(current);
    lemma_same_tail(ls, a, b, 0);
    lemma_same_tail(ls, a, b, 1);
    lemma_same_tail(ls, a, b, 2);
    lemma_same_tail(ls, a, b, 3);
    let out_a = merge::merged_lines(ls, a);
    let out_b = merge::merged_lines(ls, b);
    assert forall|i: int| 0 <= i < ls.len() implies {
        ||| #[trigger] out_a[i] == out_b[i]
        ||| (is_closed(out_a[i]) && is_closed(out_b[i]) && (merge::begins(ls, 0, i)
            || merge::begins(ls, 1, i) || merge::begins(ls, 2, i)))
    } by {
        assert(is_closed(a[0]) && is_closed(a[1]) && is_closed(a[2]));
        assert(is_closed(b[0]) && is_closed(b[1]) && is_closed(b[2]));
    }
    assert(base(ls, a).len() == base(ls, b).len());
    let pa = pieces(ls, a);
    let pb = pieces(ls, b);
    assert forall|i: int|
        0 <= i < pa.len() && i != place(ls, a, 0) && i != place(ls, a, 1) && i != place(
            ls,
            a,
            2,
        ) implies #[trigger] pa[i] == pb[i] by {
        if i < base(ls, a).len() {
            if ls.len() > 0 {
                assert(!merge::begins(ls, 0, i) && !merge::begins(ls, 1, i) && !merge::begins(
                    ls,
                    2,
                    i,
                ));
                assert(out_a[i] == out_b[i]);
                assert(out_a.last() == out_a[ls.len() - 1] && out_b.last() == out_b[ls.len()
                    - 1]);
                if i < ls.len() - 1 {
                    assert(base(ls, a)[i] == out_a[i]);
                    assert(base(ls, b)[i] == out_b[i]);
                }
            }
        } else {
            reveal_with_fuel(tail, 4);
        }
    }
}

/// As many sections are lacking, whatever the content.
proof fn lemma_same_tail(
    lines: Seq<Seq<char>>,
    a: Seq<Seq<char>>,
    b: Seq<Seq<char>>,
    k: int,
)
    requires
        0 <= k <= 3,
    ensures
        tail(lines, a, k).len() == tail(lines, b, k).len(),
    decreases k,
{
    if k > 0 {
        lemma_same_tail(lines, a, b, k - 1);
    }
}

/// What merging `b` into the text that merging `a` gave makes of its first pieces.
proof fn lemma_last_up_to(
    current: Seq<char>,
    a: Seq<Seq<char>>,
    b: Seq<Seq<char>>,
    i: int,
)
    requires
        are_section_blocks(a),
        are_closed(b),
        0 <= i <= pieces(lines::lines(current), a).len(),
    ensures
        ({
            let ls = lines::lines(current);
            let once = lines::lines(merge::merged_text(current, a));
            merge::merged_lines(once, b).take(line_count(pieces(ls, a), i)).flatten() == pieces(
                ls,
                b,
            ).take(i).flatten()
        }),
    decreases i,
{
    let ls = lines::lines(current);
    let pa = pieces(ls, a);
    let pb = pieces(ls, b);
    let once = lines::lines(merge::merged_text(current, a));
    let out = merge::merged_lines(once, b);
    lemma_blocks_stand_apart(a, 0);
    lemma_merged_pieces(current, a);
    lemma_same_pieces(current, a, b);
    if i == 0 {
        assert(pa.take(0) =~= Seq::<Seq<char>>::empty());
        assert(pb.take(0) =~= Seq::<Seq<char>>::empty());
        assert(lines::lines(Seq::<char>::empty()) =~= Seq::<Seq<char>>::empty());
        assert(out.take(0) =~= Seq::<Seq<char>>::empty());
    } else {
        let j = i - 1;
        let from = line_count(pa, j);
        let to = line_count(pa, i);
        lemma_last_up_to(current, a, b, j);
        lemma_count_step(pa, j);
        lemma_count_prefix(pa, i, pa.len() as int);
        assert(pa.take(pa.len() as int) =~= pa);
        assert(once.take(to) == lines::lines(pa.take(i).flatten()));
        assert(once.subrange(from, to) =~= lines::lines(pa[j])) by {
            assert forall|m: int| from <= m < to implies #[trigger] once[m] == lines::lines(
                pa[j],
            )[m - from] by {
                assert(once[m] == once.take(to)[m]);
            }
        }
        assert(pb.take(i) =~= pb.take(j).push(pb[j]));
        pb.take(j).lemma_flatten_push(pb[j]);
        assert(out.take(to) =~= out.take(from) + out.subrange(from, to));
        vstd::seq_lib::lemma_flatten_concat(out.take(from), out.subrange(from, to));
        lemma_last_piece(current, a, b, j);
    }
}

/// What merging `b` into the text that merging `a` gave makes of one piece.
proof fn lemma_last_piece(
    current: Seq<char>,
    a: Seq<Seq<char>>,
    b: Seq<Seq<char>>,
    j: int,
)
    requires
        are_section_blocks(a),
        are_closed(b),
        0 <= j < pieces(lines::lines(current), a).len(),
    ensures
        ({
            let ls = lines::lines(current);
            let pa = pieces(ls, a);
            let once = lines::lines(merge::merged_text(current, a));
            merge::merged_lines(once, b).subrange(
                line_count(pa, j),
                line_count(pa, j + 1),
            ).flatten() == pieces(ls, b)[j]
        }),
{
    let ls = lines::lines(current);
    let names = sections::section_names();
    let pa = pieces(ls, a);
    let pb = pieces(ls, b);
    let once = lines::lines(merge::merged_text(current, a));
    let out = merge::merged_lines(once, b);
    let from = line_count(pa, j);
    let to = line_count(pa, j + 1);
    lemma_blocks_stand_apart(a, 0);
    lemma_merged_pieces(current, a);
    lemma_same_pieces(current, a, b);
    lemma_count_step(pa, j);
    lemma_count_prefix(pa, j + 1, pa.len() as int);
    assert(pa.take(pa.len() as int) =~= pa);
    assert forall|k: int| 0 <= k < 3 implies {
        let p = #[trigger] place(ls, a, k);
        &&& 0 <= p < pa.len()
        &&& pa[p] == a[k]
        &&& pb[p] == b[k]
        &&& sections::section_start(once, names[k]) == line_count(pa, p)
        &&& sections::section_end(once, names[k]) == line_count(pa, p + 1)
        &&& line_count(pa, p) < line_count(pa, p + 1)
        &&& p < j ==> line_count(pa, p + 1) <= from
        &&& p > j ==> to <= line_count(pa, p)
    } by {
        let p = place(ls, a, k);
        lemma_blocks_stand_apart(a, k);
        lemma_merged_span(current, a, k);
        lemma_place(current, b, k);
        lemma_count_step(pa, p);
        assert(is_section_block(a[k], names[k]));
        lines::lemma_line_len(a[k]);
        assert(lines::lines(a[k]).len() > 0);
        if p < j {
            lemma_count_prefix(pa, p + 1, j);
        }
        if p > j {
            lemma_count_prefix(pa, j + 1, p);
        }
    }
    let mine = out.subrange(from, to);
    if exists|k: int| 0 <= k < 3 && #[trigger] place(ls, a, k) == j {
        let k = choose|k: int| 0 <= k < 3 && #[trigger] place(ls, a, k) == j;
        assert forall|m: int| from <= m < to implies #[trigger] out[m] == if m == from {
            b[k]
        } else {
            Seq::<char>::empty()
        } by {
            assert forall|o: int| 0 <= o < 3 && o != k implies !merge::begins(once, o, m) by {
                let q = place(ls, a, o);
                if q == j {
                    sections::lemma_section_names();
                    sections::lemma_next_header(once, 0, names[o]);
                    sections::lemma_next_header(once, 0, names[k]);
                    sections::header_names_one_section(once[from], names[o], names[k]);
                }
            }
            if m == from {
                assert(merge::begins(once, k, m));
            } else {
                assert(!merge::begins(once, k, m));
                assert(merge::continues(once, k, m));
            }
        }
        let head = seq![b[k]];
        let rest = out.subrange(from + 1, to);
        head.lemma_flatten_one_element();
        merge::lemma_flatten_empties(rest);
        assert(mine =~= head + rest);
        vstd::seq_lib::lemma_flatten_concat(head, rest);
        assert((head + rest).flatten() =~= b[k]);
    } else {
        assert(place(ls, a, 0) != j && place(ls, a, 1) != j && place(ls, a, 2) != j);
        assert forall|m: int| from <= m < to implies #[trigger] out[m] == once[m] by {
            assert forall|o: int| 0 <= o < 3 implies !merge::begins(once, o, m)
                && !merge::continues(once, o, m) by {
                let q = place(ls, a, o);
            }
        }
        assert(mine =~= lines::lines(pa[j])) by {
            assert forall|m: int| from <= m < to implies #[trigger] out[m] == lines::lines(
                pa[j],
            )[m - from] by {
                assert(once[m] == once.take(to)[m]);
            }
        }
        lines::lines_make_up_text(pa[j]);
    }
}

/// Of two merges into a text the last one counts: it gives what it gives without the first.
///
/// What was merged first are whole sections. What is merged last need only end with a line feed.
pub proof fn last_merge_wins(current: Seq<char>, a: Seq<Seq<char>>, b: Seq<Seq<char>>)
    requires
        are_section_blocks(a),
        are_closed(b),
    ensures
        merge::merged_text(merge::merged_text(current, a), b) == merge::merged_text(current, b),
{
    let ls = lines::lines(current);
    let pa = pieces(ls, a);
    let pb = pieces(ls, b);
    let once = merge::merged_text(current, a);
    let out = merge::merged_lines(lines::lines(once), b);
    lemma_blocks_stand_apart(a, 0);
    lemma_merged_pieces(current, a);
    lemma_merged_pieces(current, b);
    lemma_same_pieces(current, a, b);
    lemma_last_up_to(current, a, b, pa.len() as int);
    assert(pa.take(pa.len() as int) =~= pa);
    assert(pb.take(pb.len() as int) =~= pb);
    assert(out.take(out.len() as int) =~= out);
    lemma_blocks_stand_apart(a, 1);
    lemma_blocks_stand_apart(a, 2);
    lemma_merged_span(current, a, 0);
    lemma_merged_span(current, a, 1);
    lemma_merged_span(current, a, 2);
    reveal_with_fuel(merge::with_missing, 4);
}

/// The pieces that stand for the first lines are those lines, where every section already holds
/// what is merged in and none reaches across line `at`.
proof fn lemma_same_up_to(current: Seq<char>, content: Seq<Seq<char>>, at: int)
    requires
        content.len() == 3,
        forall|k: int|
            0 <= k < 3 ==> {
                let name = #[trigger] sections::section_names()[k];
                &&& sections::has_section(lines::lines(current), name)
                &&& section_text(current, name) == content[k]
                &&& at <= sections::section_start(lines::lines(current), name)
                    || sections::section_end(lines::lines(current), name) <= at
            },
        0 <= at <= lines::lines(current).len(),
    ensures
        merge::merged_lines(lines::lines(current), content).take(at).flatten() == lines::lines(
            current,
        ).take(at).flatten(),
    decreases at,
{
    let ls = lines::lines(current);
    let names = sections::section_names();
    let out = merge::merged_lines(ls, content);
    sections::lemma_section_names();
    if at == 0 {
        assert(out.take(0) =~= ls.take(0));
    } else {
        let i = at - 1;
        assert forall|m: int| 0 <= m < 3 implies {
            &&& 0 <= sections::section_start(ls, #[trigger] names[m]) < sections::section_end(
                ls,
                names[m],
            ) <= ls.len()
            &&& lines::opens_section(ls[sections::section_start(ls, names[m])], names[m])
        } by {
            sections::lemma_next_header(ls, 0, names[m]);
            sections::lemma_next_entry(ls, sections::section_start(ls, names[m]) + 1);
        }
        if exists|k: int|
            0 <= k < 3 && sections::section_start(ls, #[trigger] names[k]) <= i
                < sections::section_end(ls, names[k]) {
            let k = choose|k: int|
                0 <= k < 3 && sections::section_start(ls, #[trigger] names[k]) <= i
                    < sections::section_end(ls, names[k]);
            let start = sections::section_start(ls, names[k]);
            assert forall|m: int| 0 <= m < 3 implies {
                let name = #[trigger] names[m];
                &&& sections::has_section(ls, name)
                &&& section_text(current, name) == content[m]
                &&& start <= sections::section_start(ls, name) || sections::section_end(ls, name)
                    <= start
            } by {
                if m != k {
                    merge::sections_are_disjoint(ls, k, m);
                    merge::sections_are_disjoint(ls, m, k);
                }
            }
            lemma_same_up_to(current, content, start);
            assert forall|j: int| start <= j < at implies out[j] == if j == start {
                content[k]
            } else {
                Seq::<char>::empty()
            } by {
                assert forall|m: int| 0 <= m < 3 && m != k implies !merge::begins(ls, m, j) by {
                    merge::sections_are_disjoint(ls, k, m);
                    merge::sections_are_disjoint(ls, m, k);
                    let name = names[m];
                }
                if j > start {
                    assert(merge::continues(ls, k, j));
                } else {
                    assert(merge::begins(ls, k, j));
                }
            }
            let head = seq![content[k]];
            let rest = out.subrange(start + 1, at);
            head.lemma_flatten_one_element();
            merge::lemma_flatten_empties(rest);
            assert(out.take(at) =~= out.take(start) + (head + rest));
            vstd::seq_lib::lemma_flatten_concat(out.take(start), head + rest);
            vstd::seq_lib::lemma_flatten_concat(head, rest);
            assert((head + rest).flatten() =~= content[k]);
            assert(ls.take(at) =~= ls.take(start) + ls.subrange(start, at));
            vstd::seq_lib::lemma_flatten_concat(ls.take(start), ls.subrange(start, at));
        } else {
            assert forall|m: int| 0 <= m < 3 implies {
                let name = #[trigger] names[m];
                &&& sections::has_section(ls, name)
                &&& section_text(current, name) == content[m]
                &&& i <= sections::section_start(ls, name) || sections::section_end(ls, name) <= i
            } by {
                let name = names[m];
            }
            lemma_same_up_to(current, content, i);
            assert(out[i] == ls[i]) by {
                assert forall|m: int| 0 <= m < 3 implies !merge::begins(ls, m, i)
                    && !merge::continues(ls, m, i) by {
                    let name = names[m];
                }
            }
            lines::lemma_take_next(out, i);
            lines::lemma_take_next(ls, i);
        }
    }
}

/// Merging in what the sections hold already changes nothing.
pub proof fn merging_the_same_changes_nothing(current: Seq<char>, content: Seq<Seq<char>>)
    requires
        content.len() == 3,
        forall|k: int|
            0 <= k < 3 ==> {
                let name = #[trigger] sections::section_names()[k];
                &&& sections::has_section(lines::lines(current), name)
                &&& section_text(current, name) == content[k]
            },
    ensures
        merge::merged_text(current, content) == current,
{
    let ls = lines::lines(current);
    let names = sections::section_names();
    let out = merge::merged_lines(ls, content);
    assert forall|k: int| 0 <= k < 3 implies {
        let name = #[trigger] names[k];
        &&& sections::has_section(ls, name)
        &&& section_text(current, name) == content[k]
        &&& ls.len() <= sections::section_start(ls, name) || sections::section_end(ls, name)
            <= ls.len()
    } by {
        sections::lemma_next_header(ls, 0, names[k]);
        sections::lemma_next_entry(ls, sections::section_start(ls, names[k]) + 1);
    }
    lemma_same_up_to(current, content, ls.len() as int);
    assert(out.take(ls.len() as int) =~= out);
    assert(ls.take(ls.len() as int) =~= ls);
    lines::lines_make_up_text(current);
    assert(sections::has_section(ls, names[0]) && sections::has_section(ls, names[1])
        && sections::has_section(ls, names[2]));
    reveal_with_fuel(merge::with_missing, 4);
}

/// Merging the same whole sections a second time changes nothing.
pub proof fn merging_twice_is_merging_once(current: Seq<char>, content: Seq<Seq<char>>)
    requires
        are_section_blocks(content),
    ensures
        merge::merged_text(merge::merged_text(current, content), content) == merge::merged_text(
            current,
            content,
        ),
{
    lemma_blocks_stand_apart(content, 0);
    last_merge_wins(current, content, content);
}

/// A line that belongs to none of the three sections stays in the text as it is, and what
/// stands before it is what stands for the lines before it.
pub proof fn other_lines_stay(current: Seq<char>, content: Seq<Seq<char>>, i: int)
    requires
        content.len() == 3,
        0 <= i < lines::lines(current).len(),
        forall|k: int|
            0 <= k < 3 ==> !merge::begins(lines::lines(current), k, i) && !(
            #[trigger] merge::continues(lines::lines(current), k, i)),
    ensures
        ({
            let ls = lines::lines(current);
            let before = merge::merged_lines(ls, content).take(i).flatten();
            (before + ls[i]).is_prefix_of(merge::merged_text(current, content))
        }),
{
    let ls = lines::lines(current);
    let out = merge::merged_lines(ls, content);
    assert(!merge::continues(ls, 0, i) && !merge::continues(ls, 1, i) && !merge::continues(
        ls,
        2,
        i,
    ));
    assert(out[i] == ls[i]);
    lines::lemma_take_next(out, i);
    assert(out =~= out.take(i + 1) + out.skip(i + 1));
    vstd::seq_lib::lemma_flatten_concat(out.take(i + 1), out.skip(i + 1));
    lemma_with_missing_extends(out.flatten(), ls, content, 3);
    let text = merge::merged_text(current, content);
    let head = out.take(i).flatten() + ls[i];
    assert(text.take(head.len() as int) =~= head);
}

/// Putting the missing sections at the end keeps what is there.
pub(crate) proof fn lemma_with_missing_extends(
    text: Seq<char>,
    lines: Seq<Seq<char>>,
    content: Seq<Seq<char>>,
    k: int,
)
    requires
        0 <= k,
    ensures
        text.is_prefix_of(merge::with_missing(text, lines, content, k)),
    decreases k,
{
    if k > 0 {
        lemma_with_missing_extends(text, lines, content, k - 1);
    }
}

} // verus!

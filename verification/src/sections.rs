//! The top-level sections of a configuration text that a subscription replaces.

use vstd::prelude::*;
use crate::lines;
use crate::text;

verus! {

/// The sections that a subscription brings, in the order in which they are looked for.
pub const SUBSCRIPTION_SECTIONS: [&'static str; 3] = ["proxies", "proxy-groups", "rules"];

/// The first line at `from` or after that opens `section`, or the number of lines if none does.
pub open spec fn next_header(lines: Seq<Seq<char>>, from: int, section: Seq<char>) -> int
    decreases lines.len() - from,
{
    if from >= lines.len() {
        lines.len() as int
    } else if lines::opens_section(lines[from], section) {
        from
    } else {
        next_header(lines, from + 1, section)
    }
}

/// The first line at `from` or after that opens a top-level entry, or the number of lines if
/// none does.
pub open spec fn next_entry(lines: Seq<Seq<char>>, from: int) -> int
    decreases lines.len() - from,
{
    if from >= lines.len() {
        lines.len() as int
    } else if lines::opens_entry(lines[from]) {
        from
    } else {
        next_entry(lines, from + 1)
    }
}

/// The line that opens `section`: the first one that does.
pub open spec fn section_start(lines: Seq<Seq<char>>, section: Seq<char>) -> int {
    next_header(lines, 0, section)
}

/// The line at which `section` is over: the next top-level entry, or the end of the text.
pub open spec fn section_end(lines: Seq<Seq<char>>, section: Seq<char>) -> int {
    next_entry(lines, section_start(lines, section) + 1)
}

/// Whether one of `lines` opens `section`.
pub open spec fn has_section(lines: Seq<Seq<char>>, section: Seq<char>) -> bool {
    section_start(lines, section) < lines.len()
}

/// What a search for a header finds.
pub(crate) proof fn lemma_next_header(lines: Seq<Seq<char>>, from: int, section: Seq<char>)
    requires
        0 <= from <= lines.len(),
    ensures
        from <= next_header(lines, from, section) <= lines.len(),
        forall|i: int|
            from <= i < next_header(lines, from, section) ==> !lines::opens_section(
                #[trigger] lines[i],
                section,
            ),
        next_header(lines, from, section) < lines.len() ==> lines::opens_section(
            lines[next_header(lines, from, section)],
            section,
        ),
    decreases lines.len() - from,
{
    if from < lines.len() && !lines::opens_section(lines[from], section) {
        lemma_next_header(lines, from + 1, section);
    }
}

/// What a search for a top-level entry finds.
pub(crate) proof fn lemma_next_entry(lines: Seq<Seq<char>>, from: int)
    requires
        0 <= from <= lines.len(),
    ensures
        from <= next_entry(lines, from) <= lines.len(),
        forall|i: int|
            from <= i < next_entry(lines, from) ==> !lines::opens_entry(#[trigger] lines[i]),
        next_entry(lines, from) < lines.len() ==> lines::opens_entry(
            lines[next_entry(lines, from)],
        ),
    decreases lines.len() - from,
{
    if from < lines.len() && !lines::opens_entry(lines[from]) {
        lemma_next_entry(lines, from + 1);
    }
}

/// Whether `name` can stand as the name of a section: it is not empty, has no colon, and starts
/// as a top-level entry may.
pub open spec fn section_name(name: Seq<char>) -> bool {
    &&& name.len() > 0
    &&& !lines::white_space(name[0]) && name[0] != '#' && name[0] != '-'
    &&& forall|i: int| 0 <= i < name.len() ==> name[i] != ':'
}

/// The names of the sections that a subscription brings.
pub open spec fn section_names() -> Seq<Seq<char>> {
    seq![SUBSCRIPTION_SECTIONS@[0]@, SUBSCRIPTION_SECTIONS@[1]@, SUBSCRIPTION_SECTIONS@[2]@]
}

/// The three names can stand as section names and differ from each other.
pub proof fn lemma_section_names()
    ensures
        section_names().len() == 3,
        section_names() =~= seq!["proxies"@, "proxy-groups"@, "rules"@],
        forall|k: int| 0 <= k < 3 ==> section_name(#[trigger] section_names()[k]),
        forall|k: int, m: int|
            0 <= k < 3 && 0 <= m < 3 && k != m ==> #[trigger] section_names()[k]
                != #[trigger] section_names()[m],
{
    reveal_strlit("proxies");
    reveal_strlit("proxy-groups");
    reveal_strlit("rules");
    assert("proxies"@.len() == 7 && "proxy-groups"@.len() == 12 && "rules"@.len() == 5);
}

/// A line that opens a section opens a top-level entry.
pub proof fn header_opens_entry(line: Seq<char>, section: Seq<char>)
    requires
        section_name(section),
        lines::opens_section(line, section),
    ensures
        lines::opens_entry(line),
{
    let body = lines::line_body(line);
    let n = section.len() as int;
    assert forall|i: int| 0 <= i < n implies body[i] == section[i] by {
        assert(body.take(n)[i] == section[i]);
    }
    lemma_colon_at(body, 0, n);
    assert(body.take(n)[0] == section[0]);
}

/// The first colon of a text, once it is known where it is.
pub(crate) proof fn lemma_colon_at(body: Seq<char>, from: int, n: int)
    requires
        0 <= from <= n < body.len(),
        body[n] == ':',
        forall|i: int| from <= i < n ==> body[i] != ':',
    ensures
        lines::colon_at(body, from) == n,
    decreases n - from,
{
    if from < n {
        lemma_colon_at(body, from + 1, n);
    }
}

/// A line opens at most one section.
pub proof fn header_names_one_section(line: Seq<char>, a: Seq<char>, b: Seq<char>)
    requires
        section_name(a),
        section_name(b),
        lines::opens_section(line, a),
        lines::opens_section(line, b),
    ensures
        a == b,
{
    let body = lines::line_body(line);
    if a.len() < b.len() {
        assert(body.take(b.len() as int)[a.len() as int] == b[a.len() as int]);
    } else if b.len() < a.len() {
        assert(body.take(a.len() as int)[b.len() as int] == a[b.len() as int]);
    }
}

/// The part of `input` from line `i` up to line `j`, given the byte offsets of the two.
pub(crate) fn line_span<'a>(
    input: &'a str,
    start: usize,
    end: usize,
    Ghost(i): Ghost<int>,
    Ghost(j): Ghost<int>,
) -> (r: &'a str)
    requires
        0 <= i <= j <= lines::lines(input@).len(),
        start == lines::line_offset(lines::lines(input@), i),
        end == lines::line_offset(lines::lines(input@), j),
    ensures
        r@ == lines::lines(input@).subrange(i, j).flatten(),
{
    let ghost ls = lines::lines(input@);
    let ghost head = ls.take(i).flatten();
    let ghost part = ls.subrange(i, j).flatten();
    proof {
        lines::lemma_prefix(input@, i);
        lines::lemma_prefix(input@, j);
        assert(ls.take(j) =~= ls.take(i) + ls.subrange(i, j));
        vstd::seq_lib::lemma_flatten_concat(ls.take(i), ls.subrange(i, j));
    }
    let (before, _) = text::split(input, end, Ghost((head + part).len() as int));
    proof {
        assert((head + part).take(head.len() as int) =~= head);
        assert((head + part).skip(head.len() as int) =~= part);
    }
    let (_, span) = text::split(before, start, Ghost(head.len() as int));
    span
}

/// The byte range of `section` in `input`: from the first line that opens it up to the next
/// top-level entry, or up to the end of `input`.
pub fn find_top_level_section_range(input: &str, section: &str) -> (r: Option<(usize, usize)>)
    ensures
        r is Some <==> has_section(lines::lines(input@), section@),
        r matches Some((start, end)) ==> {
            let ls = lines::lines(input@);
            &&& start == lines::line_offset(ls, section_start(ls, section@))
            &&& end == lines::line_offset(ls, section_end(ls, section@))
        },
{
    let ranges = lines::line_ranges(input);
    let ghost ls = lines::lines(input@);
    let count: usize = ranges.len();
    let mut i: usize = 0;
    while i < count
        invariant_except_break
            next_header(ls, 0, section@) == next_header(ls, i as int, section@),
        invariant
            ls == lines::lines(input@),
            count == ranges@.len() == ls.len(),
            forall|k: int|
                0 <= k < ranges@.len() ==> (#[trigger] ranges@[k]).0 == lines::line_offset(ls, k)
                    && ranges@[k].1 == lines::line_offset(ls, k + 1),
            i <= count,
        ensures
            i == section_start(ls, section@),
        decreases count - i,
    {
        let (start, end) = ranges[i];
        let line = line_span(input, start, end, Ghost(i as int), Ghost(i + 1));
        proof {
            assert(ls.subrange(i as int, i + 1) =~= seq![ls[i as int]]);
            ls.subrange(i as int, i + 1).lemma_flatten_one_element();
        }
        if lines::is_section_header(line, section) {
            break;
        }
        i = i + 1;
    }
    if i == count {
        return None;
    }
    let start: usize = ranges[i].0;
    let mut j: usize = i + 1;
    while j < count
        invariant
            ls == lines::lines(input@),
            count == ranges@.len() == ls.len(),
            forall|k: int|
                0 <= k < ranges@.len() ==> (#[trigger] ranges@[k]).0 == lines::line_offset(ls, k)
                    && ranges@[k].1 == lines::line_offset(ls, k + 1),
            i < j <= count,
            i == section_start(ls, section@),
            start == lines::line_offset(ls, i as int),
            section_end(ls, section@) == next_entry(ls, j as int),
        decreases count - j,
    {
        let (from, to) = ranges[j];
        let line = line_span(input, from, to, Ghost(j as int), Ghost(j + 1));
        proof {
            assert(ls.subrange(j as int, j + 1) =~= seq![ls[j as int]]);
            ls.subrange(j as int, j + 1).lemma_flatten_one_element();
        }
        if lines::is_top_level_key(line) {
            return Some((start, from));
        }
        j = j + 1;
    }
    proof {
        assert(ls.take(ls.len() as int) =~= ls);
        lines::lines_make_up_text(input@);
    }
    Some((start, text::size(input)))
}

} // verus!

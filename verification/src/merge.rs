//! Putting rendered sections into a configuration text.

use vstd::prelude::*;
use crate::lines;
use crate::sections;
use crate::sections::SUBSCRIPTION_SECTIONS;
use crate::text;

verus! {

/// What three rendered sections hold.
pub open spec fn contents(rendered: [String; 3]) -> Seq<Seq<char>> {
    seq![rendered@[0]@, rendered@[1]@, rendered@[2]@]
}

/// Whether section `k` is found in `lines` and begins at line `i`.
pub open spec fn begins(lines: Seq<Seq<char>>, k: int, i: int) -> bool {
    sections::section_start(lines, sections::section_names()[k]) == i < lines.len()
}

/// Whether line `i` belongs to section `k` and is not its first line.
pub open spec fn continues(lines: Seq<Seq<char>>, k: int, i: int) -> bool {
    let name = sections::section_names()[k];
    sections::section_start(lines, name) < i < sections::section_end(lines, name)
}

/// What stands in the merged text for line `i`: the new content of a section for the line that
/// opens it, nothing for the other lines of that section, and any other line as it is.
pub open spec fn merged_line(lines: Seq<Seq<char>>, content: Seq<Seq<char>>, i: int) -> Seq<char> {
    if begins(lines, 0, i) {
        content[0]
    } else if begins(lines, 1, i) {
        content[1]
    } else if begins(lines, 2, i) {
        content[2]
    } else if continues(lines, 0, i) || continues(lines, 1, i) || continues(lines, 2, i) {
        Seq::empty()
    } else {
        lines[i]
    }
}

/// What stands in the merged text for each line.
pub open spec fn merged_lines(lines: Seq<Seq<char>>, content: Seq<Seq<char>>) -> Seq<Seq<char>> {
    Seq::new(lines.len(), |i: int| merged_line(lines, content, i))
}

/// `text`, brought to the end of a line, with `block` behind it.
pub open spec fn with_block(text: Seq<char>, block: Seq<char>) -> Seq<char> {
    if text.len() > 0 && text.last() == '\n' {
        text + block
    } else {
        text.push('\n') + block
    }
}

/// `text` with the content of those of the first `k` sections behind it that `lines` lacks.
pub open spec fn with_missing(
    text: Seq<char>,
    lines: Seq<Seq<char>>,
    content: Seq<Seq<char>>,
    k: int,
) -> Seq<char>
    decreases k,
{
    if k <= 0 {
        text
    } else {
        let before = with_missing(text, lines, content, k - 1);
        if sections::has_section(lines, sections::section_names()[k - 1]) {
            before
        } else {
            with_block(before, content[k - 1])
        }
    }
}

/// `current` with new content for the three sections: in place where a section is there, at
/// the end where it is not.
pub open spec fn merged_text(current: Seq<char>, content: Seq<Seq<char>>) -> Seq<char> {
    let ls = lines::lines(current);
    with_missing(merged_lines(ls, content).flatten(), ls, content, 3)
}

/// How two of the sections lie in a text: they do not overlap.
pub proof fn sections_are_disjoint(lines: Seq<Seq<char>>, k: int, m: int)
    requires
        0 <= k < 3,
        0 <= m < 3,
        k != m,
    ensures
        ({
            let a = sections::section_names()[k];
            let b = sections::section_names()[m];
            sections::has_section(lines, a) && sections::has_section(lines, b)
                && sections::section_start(lines, a) <= sections::section_start(lines, b)
                ==> sections::section_end(lines, a) <= sections::section_start(lines, b)
        }),
{
    let a = sections::section_names()[k];
    let b = sections::section_names()[m];
    sections::lemma_section_names();
    if sections::has_section(lines, a) && sections::has_section(lines, b)
        && sections::section_start(lines, a) <= sections::section_start(lines, b) {
        sections::lemma_next_header(lines, 0, a);
        sections::lemma_next_header(lines, 0, b);
        let i = sections::section_start(lines, a);
        let j = sections::section_start(lines, b);
        if i == j {
            sections::header_names_one_section(lines[i], a, b);
        }
        sections::header_opens_entry(lines[j], b);
        sections::lemma_next_entry(lines, i + 1);
    }
}

/// Lines with nothing in them put in a row are nothing.
pub(crate) proof fn lemma_flatten_empties(parts: Seq<Seq<char>>)
    requires
        forall|i: int| 0 <= i < parts.len() ==> (#[trigger] parts[i]).len() == 0,
    ensures
        parts.flatten() == Seq::<char>::empty(),
    decreases parts.len(),
{
    if parts.len() > 0 {
        lemma_flatten_empties(parts.drop_first());
        assert(parts.flatten() =~= Seq::<char>::empty());
    }
}

/// No section that is found reaches across line `at`.
spec fn settled(lines: Seq<Seq<char>>, at: int) -> bool {
    forall|k: int|
        0 <= k < 3 ==> {
            let name = #[trigger] sections::section_names()[k];
            sections::has_section(lines, name) ==> at <= sections::section_start(lines, name)
                || sections::section_end(lines, name) <= at
        }
}

/// The merged text of the lines from `at` up to the end of section `k`, where `k` is the next
/// section to come.
proof fn lemma_step(lines: Seq<Seq<char>>, content: Seq<Seq<char>>, at: int, k: int)
    requires
        content.len() == 3,
        0 <= k < 3,
        0 <= at <= sections::section_start(lines, sections::section_names()[k]),
        sections::has_section(lines, sections::section_names()[k]),
        settled(lines, at),
        forall|m: int|
            0 <= m < 3 ==> {
                let name = #[trigger] sections::section_names()[m];
                sections::has_section(lines, name) && at <= sections::section_start(lines, name)
                    ==> sections::section_start(lines, sections::section_names()[k])
                    <= sections::section_start(lines, name)
            },
    ensures
        ({
            let name = sections::section_names()[k];
            let start = sections::section_start(lines, name);
            let end = sections::section_end(lines, name);
            let out = merged_lines(lines, content);
            &&& start < end <= lines.len()
            &&& settled(lines, end)
            &&& out.take(end).flatten() == out.take(at).flatten() + lines.subrange(
                at,
                start,
            ).flatten() + content[k]
        }),
{
    let names = sections::section_names();
    let name = names[k];
    let start = sections::section_start(lines, name);
    let end = sections::section_end(lines, name);
    let out = merged_lines(lines, content);
    sections::lemma_next_entry(lines, start + 1);
    assert forall|m: int| 0 <= m < 3 && m != k && sections::has_section(
        lines,
        #[trigger] names[m],
    ) implies (sections::section_end(lines, names[m]) <= at || end <= sections::section_start(
        lines,
        names[m],
    )) && sections::section_start(lines, names[m]) < sections::section_end(lines, names[m]) by {
        sections::lemma_next_header(lines, 0, names[m]);
        sections::lemma_next_entry(lines, sections::section_start(lines, names[m]) + 1);
        sections_are_disjoint(lines, k, m);
    }
    assert(names[0] == names[0] && names[1] == names[1] && names[2] == names[2]);
    assert forall|i: int| at <= i < start implies out[i] == lines[i] by {
        assert forall|m: int| 0 <= m < 3 implies !begins(lines, m, i) && !continues(lines, m, i) by {
            let other = names[m];
            sections::lemma_next_header(lines, 0, other);
        }
    }
    assert forall|i: int| start <= i < end implies out[i] == if i == start {
        content[k]
    } else {
        Seq::<char>::empty()
    } by {
        assert forall|m: int| 0 <= m < 3 && m != k implies !begins(lines, m, i) by {
            let other = names[m];
        }
        if i > start {
            assert(continues(lines, k, i));
        }
    }
    let kept = out.subrange(at, start);
    assert(kept =~= lines.subrange(at, start));
    let rest = out.subrange(start + 1, end);
    lemma_flatten_empties(rest);
    let here = seq![content[k]];
    here.lemma_flatten_one_element();
    assert(out.take(end) =~= out.take(at) + (kept + (here + rest)));
    vstd::seq_lib::lemma_flatten_concat(out.take(at), kept + (here + rest));
    vstd::seq_lib::lemma_flatten_concat(kept, here + rest);
    vstd::seq_lib::lemma_flatten_concat(here, rest);
    assert(out.take(end).flatten() =~= out.take(at).flatten() + kept.flatten() + content[k]);
}

/// The lines from `at` on stay as they are where no section is left to come.
proof fn lemma_rest(lines: Seq<Seq<char>>, content: Seq<Seq<char>>, at: int)
    requires
        content.len() == 3,
        0 <= at <= lines.len(),
        settled(lines, at),
        forall|m: int|
            0 <= m < 3 ==> {
                let name = #[trigger] sections::section_names()[m];
                sections::has_section(lines, name) ==> sections::section_start(lines, name) < at
            },
    ensures
        merged_lines(lines, content).flatten() == merged_lines(lines, content).take(
            at,
        ).flatten() + lines.skip(at).flatten(),
{
    let names = sections::section_names();
    let out = merged_lines(lines, content);
    assert forall|i: int| at <= i < lines.len() implies out[i] == lines[i] by {
        assert forall|m: int| 0 <= m < 3 implies !begins(lines, m, i) && !continues(lines, m, i) by {
            let other = names[m];
            sections::lemma_next_header(lines, 0, other);
        }
    }
    assert(out.skip(at) =~= lines.skip(at));
    assert(out =~= out.take(at) + out.skip(at));
    vstd::seq_lib::lemma_flatten_concat(out.take(at), out.skip(at));
}

/// The byte at which a range begins.
spec fn range_start(range: Option<(usize, usize)>) -> int {
    match range {
        Some((start, _)) => start as int,
        None => 0,
    }
}

/// The byte at which a range ends.
spec fn range_end(range: Option<(usize, usize)>) -> int {
    match range {
        Some((_, end)) => end as int,
        None => 0,
    }
}

/// The section that begins next at byte `pos` or after, given where each section lies.
fn next_section(ranges: &Vec<Option<(usize, usize)>>, pos: usize) -> (r: Option<usize>)
    ensures
        match r {
            Some(k) => {
                &&& k < ranges@.len()
                &&& ranges@[k as int] is Some
                &&& pos <= range_start(ranges@[k as int])
                &&& forall|m: int|
                    0 <= m < ranges@.len() && (#[trigger] ranges@[m]) is Some && pos
                        <= range_start(ranges@[m]) ==> range_start(ranges@[k as int]) <= range_start(ranges@[m])
            },
            None => forall|m: int|
                0 <= m < ranges@.len() && (#[trigger] ranges@[m]) is Some ==> range_start(ranges@[m])
                    < pos,
        },
{
    let mut best: Option<usize> = None;
    let mut m: usize = 0;
    while m < ranges.len()
        invariant
            m <= ranges@.len(),
            match best {
                Some(k) => {
                    &&& k < m
                    &&& ranges@[k as int] is Some
                    &&& pos <= range_start(ranges@[k as int])
                    &&& forall|n: int|
                        0 <= n < m && (#[trigger] ranges@[n]) is Some && pos <= range_start(ranges@[n])
                            ==> range_start(ranges@[k as int]) <= range_start(ranges@[n])
                },
                None => forall|n: int|
                    0 <= n < m && (#[trigger] ranges@[n]) is Some ==> range_start(ranges@[n]) < pos,
            },
        decreases ranges.len() - m,
    {
        if let Some((start, _)) = ranges[m] {
            if pos <= start {
                match best {
                    Some(k) => {
                        if let Some((least, _)) = ranges[k] {
                            if start < least {
                                best = Some(m);
                            }
                        }
                    },
                    None => {
                        best = Some(m);
                    },
                }
            }
        }
        m = m + 1;
    }
    best
}

/// Whether `text` ends with a line feed.
pub(crate) fn ends_line(text: &String) -> (r: bool)
    ensures
        r == (text@.len() > 0 && text@.last() == '\n'),
{
    let cs = text::chars(text.as_str());
    cs.len() > 0 && cs[cs.len() - 1] == '\n'
}

/// `current` with new content for the three sections. `rendered` holds the content in the
/// order of the section names.
pub fn merge_sections(current: &str, rendered: &[String; 3]) -> (r: String)
    ensures
        r@ == merged_text(current@, contents(*rendered)),
{
    let ghost ls = lines::lines(current@);
    let ghost content = contents(*rendered);
    let ghost names = sections::section_names();
    let ghost out = merged_lines(ls, content);
    let mut ranges: Vec<Option<(usize, usize)>> = Vec::new();
    let mut k: usize = 0;
    while k < 3
        invariant
            k <= 3,
            ranges@.len() == k,
            ls == lines::lines(current@),
            names == sections::section_names(),
            forall|m: int|
                0 <= m < k ==> {
                    &&& (#[trigger] ranges@[m]) is Some <==> sections::has_section(ls, names[m])
                    &&& ranges@[m] is Some ==> range_start(ranges@[m]) == lines::line_offset(
                        ls,
                        sections::section_start(ls, names[m]),
                    )
                    &&& ranges@[m] is Some ==> range_end(ranges@[m]) == lines::line_offset(
                        ls,
                        sections::section_end(ls, names[m]),
                    )
                },
        decreases 3 - k,
    {
        ranges.push(sections::find_top_level_section_range(current, SUBSCRIPTION_SECTIONS[k]));
        k = k + 1;
    }
    let size: usize = text::size(current);
    let mut merged = String::new();
    let mut pos: usize = 0;
    let ghost mut at: int = 0;
    proof {
        assert(ls.take(0) =~= Seq::<Seq<char>>::empty());
        assert(out.take(0) =~= Seq::<Seq<char>>::empty());
        assert forall|m: int| 0 <= m < 3 implies 0 <= sections::section_start(
            ls,
            #[trigger] names[m],
        ) by {
            sections::lemma_next_header(ls, 0, names[m]);
        }
        assert(ls.take(ls.len() as int) =~= ls);
        lines::lines_make_up_text(current@);
    }
    loop
        invariant
            ls == lines::lines(current@),
            content == contents(*rendered),
            content.len() == 3,
            names == sections::section_names(),
            out == merged_lines(ls, content),
            size == lines::line_offset(ls, ls.len() as int),
            ranges@.len() == 3,
            forall|m: int|
                0 <= m < 3 ==> {
                    &&& (#[trigger] ranges@[m]) is Some <==> sections::has_section(ls, names[m])
                    &&& ranges@[m] is Some ==> range_start(ranges@[m]) == lines::line_offset(
                        ls,
                        sections::section_start(ls, names[m]),
                    )
                    &&& ranges@[m] is Some ==> range_end(ranges@[m]) == lines::line_offset(
                        ls,
                        sections::section_end(ls, names[m]),
                    )
                },
            0 <= at <= ls.len(),
            pos == lines::line_offset(ls, at),
            settled(ls, at),
            merged@ == out.take(at).flatten(),
        ensures
            forall|m: int|
                0 <= m < 3 ==> {
                    let name = #[trigger] names[m];
                    sections::has_section(ls, name) ==> sections::section_start(ls, name) < at
                },
        decreases ls.len() - at,
    {
        let next = next_section(&ranges, pos);
        proof {
            assert forall|m: int| 0 <= m < 3 && sections::has_section(
                ls,
                #[trigger] names[m],
            ) implies (pos <= range_start(ranges@[m]) <==> at <= sections::section_start(ls, names[m])) by {
                let start = sections::section_start(ls, names[m]);
                sections::lemma_next_header(ls, 0, names[m]);
                if start < at {
                    lines::lemma_offsets_grow(current@, start, at);
                } else if at < start {
                    lines::lemma_offsets_grow(current@, at, start);
                }
            }
            assert forall|m: int| 0 <= m < 3 implies (ranges@[m] is Some
                <==> sections::has_section(ls, #[trigger] names[m])) by {
                let range = ranges@[m];
            }
        }
        let k: usize = match next {
            Some(k) => k,
            None => {
                break;
            },
        };
        if let Some((start, end)) = ranges[k] {
            let ghost first = sections::section_start(ls, names[k as int]);
            proof {
                assert(names[k as int] == names[k as int]);
                assert forall|m: int| 0 <= m < 3 implies {
                    let name = #[trigger] names[m];
                    sections::has_section(ls, name) && at <= sections::section_start(ls, name)
                        ==> first <= sections::section_start(ls, name)
                } by {
                    let range = ranges@[m];
                    let other = sections::section_start(ls, names[m]);
                    sections::lemma_next_header(ls, 0, names[m]);
                    if sections::has_section(ls, names[m]) && other < first {
                        lines::lemma_offsets_grow(current@, other, first);
                    }
                }
                lemma_step(ls, content, at, k as int);
            }
            let kept = sections::line_span(current, pos, start, Ghost(at), Ghost(first));
            merged.append(kept);
            merged.append(rendered[k].as_str());
            pos = end;
            proof {
                assert(content[k as int] == rendered@[k as int]@);
                at = sections::section_end(ls, names[k as int]);
            }
        }
    }
    let rest = sections::line_span(current, pos, size, Ghost(at), Ghost(ls.len() as int));
    merged.append(rest);
    proof {
        assert(ls.subrange(at, ls.len() as int) =~= ls.skip(at));
        lemma_rest(ls, content, at);
    }
    let mut k: usize = 0;
    while k < 3
        invariant
            k <= 3,
            ls == lines::lines(current@),
            content == contents(*rendered),
            names == sections::section_names(),
            out == merged_lines(ls, content),
            ranges@.len() == 3,
            forall|m: int|
                0 <= m < 3 ==> ((#[trigger] ranges@[m]) is Some <==> sections::has_section(
                    ls,
                    names[m],
                )),
            merged@ == with_missing(out.flatten(), ls, content, k as int),
        decreases 3 - k,
    {
        if ranges[k].is_none() {
            if !ends_line(&merged) {
                proof {
                    reveal_strlit("\n");
                    assert(merged@ + "\n"@ =~= merged@.push('\n'));
                }
                merged.append("\n");
            }
            merged.append(rendered[k].as_str());
            assert(content[k as int] == rendered@[k as int]@);
        }
        k = k + 1;
    }
    merged
}

/// The contents are the texts that are given, in the order of the section names.
pub proof fn contents_keep_their_order(rendered: [String; 3], k: int)
    requires
        0 <= k < 3,
    ensures
        contents(rendered).len() == 3,
        contents(rendered)[k] == rendered@[k]@,
{
}

} // verus!

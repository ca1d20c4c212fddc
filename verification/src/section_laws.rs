//! Where a section lies, and what a merge makes of it.

use vstd::prelude::*;
use crate::line_laws;
use crate::lines;
use crate::merge;
use crate::merge_laws;
use crate::sections;

verus! {

/// A section begins at the first line that opens it, and is over where the next line opens a
/// top-level entry, or with the text.
pub proof fn section_lies_between(ls: Seq<Seq<char>>, section: Seq<char>, start: int, end: int)
    requires
        0 <= start < end <= ls.len(),
        lines::opens_section(ls[start], section),
        forall|i: int| 0 <= i < start ==> !lines::opens_section(#[trigger] ls[i], section),
        forall|i: int| start < i < end ==> !lines::opens_entry(#[trigger] ls[i]),
        end < ls.len() ==> lines::opens_entry(ls[end]),
    ensures
        sections::has_section(ls, section),
        sections::section_start(ls, section) == start,
        sections::section_end(ls, section) == end,
{
    sections::lemma_next_header(ls, 0, section);
    let found = sections::section_start(ls, section);
    assert(found == start) by {
        if found < start {
            assert(!lines::opens_section(ls[found], section));
        }
        if start < found {
            assert(!lines::opens_section(ls[start], section));
        }
    }
    sections::lemma_next_entry(ls, start + 1);
    let over = sections::section_end(ls, section);
    if over < end {
        assert(!lines::opens_entry(ls[over]));
    }
    if end < over {
        assert(!lines::opens_entry(ls[end]));
    }
}

/// A section that no line opens is not there.
pub proof fn section_is_lacking(ls: Seq<Seq<char>>, section: Seq<char>)
    requires
        forall|i: int| 0 <= i < ls.len() ==> !lines::opens_section(#[trigger] ls[i], section),
    ensures
        !sections::has_section(ls, section),
        sections::section_start(ls, section) == ls.len(),
{
    sections::lemma_next_header(ls, 0, section);
}

/// A merge goes line by line. `starts` and `ends` tell where the three sections lie, with the
/// number of lines where one is lacking. In place of the line that opens a section comes its new
/// content, in place of its other lines nothing, and every other line stays. Behind all that
/// comes what is lacking, each on a line of its own.
pub proof fn merge_goes_line_by_line(
    current: Seq<char>,
    content: Seq<Seq<char>>,
    starts: Seq<int>,
    ends: Seq<int>,
    pieces: Seq<Seq<char>>,
)
    requires
        content.len() == 3,
        starts.len() == 3,
        ends.len() == 3,
        pieces.len() == lines::lines(current).len(),
        forall|k: int|
            #![trigger starts[k]]
            #![trigger ends[k]]
            0 <= k < 3 ==> {
                let ls = lines::lines(current);
                let name = sections::section_names()[k];
                &&& 0 <= starts[k] <= ends[k] <= ls.len()
                &&& forall|i: int|
                    0 <= i < starts[k] ==> !lines::opens_section(#[trigger] ls[i], name)
                &&& starts[k] < ls.len() ==> lines::opens_section(ls[starts[k]], name) && starts[k]
                    < ends[k]
                &&& forall|i: int|
                    starts[k] < i < ends[k] ==> !lines::opens_entry(#[trigger] ls[i])
                &&& ends[k] < ls.len() ==> lines::opens_entry(ls[ends[k]])
            },
        forall|k: int|
            0 <= k < 3 && #[trigger] starts[k] < pieces.len() ==> pieces[starts[k]] == content[k],
        forall|k: int, i: int|
            0 <= k < 3 && #[trigger] starts[k] < i < ends[k] ==> (#[trigger] pieces[i]).len() == 0,
        forall|i: int|
            0 <= i < pieces.len() && !(starts[0] <= i < ends[0]) && !(starts[1] <= i < ends[1])
                && !(starts[2] <= i < ends[2]) ==> #[trigger] pieces[i] == lines::lines(
                current,
            )[i],
    ensures
        ({
            let count = lines::lines(current).len();
            let kept = pieces.flatten();
            let one = if starts[0] < count {
                kept
            } else if kept.len() > 0 && kept.last() == '\n' {
                kept + content[0]
            } else {
                kept.push('\n') + content[0]
            };
            let two = if starts[1] < count {
                one
            } else if one.len() > 0 && one.last() == '\n' {
                one + content[1]
            } else {
                one.push('\n') + content[1]
            };
            let three = if starts[2] < count {
                two
            } else if two.len() > 0 && two.last() == '\n' {
                two + content[2]
            } else {
                two.push('\n') + content[2]
            };
            merge::merged_text(current, content) == three
        }),
{
    let ls = lines::lines(current);
    let names = sections::section_names();
    let out = merge::merged_lines(ls, content);
    sections::lemma_section_names();
    assert forall|k: int| 0 <= k < 3 implies {
        &&& sections::section_start(ls, names[k]) == #[trigger] starts[k]
        &&& starts[k] < ls.len() ==> sections::section_end(ls, names[k]) == ends[k]
        &&& starts[k] == ls.len() ==> sections::section_end(ls, names[k]) == ls.len()
    } by {
        if starts[k] < ls.len() {
            section_lies_between(ls, names[k], starts[k], ends[k]);
        } else {
            section_is_lacking(ls, names[k]);
        }
    }
    assert(starts[0] == starts[0] && starts[1] == starts[1] && starts[2] == starts[2]);
    assert forall|i: int| 0 <= i < ls.len() implies out[i] == #[trigger] pieces[i] by {
        assert forall|k: int| 0 <= k < 3 implies {
            &&& merge::begins(ls, k, i) == (#[trigger] starts[k] == i)
            &&& merge::continues(ls, k, i) == (starts[k] < i < ends[k])
        } by {}
        assert(merge::begins(ls, 0, i) == (starts[0] == i));
        assert(merge::begins(ls, 1, i) == (starts[1] == i));
        assert(merge::begins(ls, 2, i) == (starts[2] == i));
        assert(merge::continues(ls, 0, i) == (starts[0] < i < ends[0]));
        assert(merge::continues(ls, 1, i) == (starts[1] < i < ends[1]));
        assert(merge::continues(ls, 2, i) == (starts[2] < i < ends[2]));
        if pieces[i].len() == 0 {
            assert(pieces[i] =~= Seq::<char>::empty());
        }
    }
    assert(out =~= pieces);
    reveal_with_fuel(merge::with_missing, 4);
}

/// Where a section lies in lines that have the section `k` in their midst.
proof fn lemma_around(
    a: Seq<Seq<char>>,
    mid: Seq<Seq<char>>,
    b: Seq<Seq<char>>,
    k: int,
    m: int,
)
    requires
        0 <= k < 3,
        0 <= m < 3,
        mid.len() > 0,
        lines::opens_section(mid[0], sections::section_names()[k]),
        forall|i: int| 1 <= i < mid.len() ==> !lines::opens_entry(#[trigger] mid[i]),
        forall|i: int|
            0 <= i < a.len() ==> !lines::opens_section(
                #[trigger] a[i],
                sections::section_names()[k],
            ),
        b.len() > 0 ==> lines::opens_entry(b[0]),
    ensures
        ({
            let all = a + mid + b;
            let name = sections::section_names()[m];
            let shift = a.len() + mid.len();
            let before = sections::next_header(a, 0, name);
            let after = sections::next_header(b, 0, name);
            if m == k {
                &&& sections::section_start(all, name) == a.len()
                &&& sections::section_end(all, name) == shift
            } else if before < a.len() {
                &&& sections::section_start(all, name) == before
                &&& sections::section_end(all, name) == sections::next_entry(a, before + 1)
                &&& sections::next_entry(a, before + 1) <= a.len()
            } else {
                &&& sections::section_start(all, name) == shift + after
                &&& after < b.len() ==> sections::section_end(all, name) == shift
                    + sections::next_entry(b, after + 1)
                &&& after == b.len() ==> sections::section_end(all, name) == all.len()
                &&& after <= b.len()
            }
        }),
{
    let all = a + mid + b;
    let names = sections::section_names();
    let name = names[m];
    let shift = (a.len() + mid.len()) as int;
    sections::lemma_section_names();
    sections::header_opens_entry(mid[0], names[k]);
    sections::lemma_next_header(a, 0, name);
    sections::lemma_next_header(b, 0, name);
    assert forall|i: int| 0 <= i < a.len() implies #[trigger] all[i] == a[i] by {}
    assert forall|i: int| a.len() <= i < shift implies #[trigger] all[i] == mid[i - a.len()] by {}
    assert forall|i: int| shift <= i < all.len() implies #[trigger] all[i] == b[i - shift] by {}
    let before = sections::next_header(a, 0, name);
    let after = sections::next_header(b, 0, name);
    assert(all[a.len() as int] == mid[0]);
    if m == k {
        assert forall|i: int| a.len() < i < shift implies !lines::opens_entry(
            #[trigger] all[i],
        ) by {
            assert(all[i] == mid[i - a.len()]);
        }
        section_lies_between(all, name, a.len() as int, shift);
    } else if before < a.len() {
        sections::lemma_next_entry(a, before + 1);
        section_lies_between(all, name, before, sections::next_entry(a, before + 1));
    } else {
        assert forall|i: int| 0 <= i < shift implies !lines::opens_section(
            #[trigger] all[i],
            name,
        ) by {
            if i < a.len() {
                assert(!lines::opens_section(a[i], name));
            } else if lines::opens_section(all[i], name) {
                assert(all[i] == mid[i - a.len()]);
                sections::header_opens_entry(all[i], name);
                assert(i == a.len());
                sections::header_names_one_section(all[i], name, names[k]);
            }
        }
        assert forall|i: int| 0 <= i < shift + after implies !lines::opens_section(
            #[trigger] all[i],
            name,
        ) by {
            if i >= shift {
                assert(all[i] == b[i - shift]);
            }
        }
        if after < b.len() {
            sections::lemma_next_entry(b, after + 1);
            let over = sections::next_entry(b, after + 1);
            assert(all[shift + after] == b[after]);
            assert forall|i: int| shift + after < i < shift + over implies !lines::opens_entry(
                #[trigger] all[i],
            ) by {
                assert(all[i] == b[i - shift]);
            }
            section_lies_between(all, name, shift + after, shift + over);
        } else {
            section_is_lacking(all, name);
        }
    }
}

/// What a merge makes of lines does not depend on what section `k` holds in them.
proof fn lemma_same_around(
    a: Seq<Seq<char>>,
    mid: Seq<Seq<char>>,
    other: Seq<Seq<char>>,
    b: Seq<Seq<char>>,
    content: Seq<Seq<char>>,
    k: int,
)
    requires
        0 <= k < 3,
        content.len() == 3,
        mid.len() > 0,
        lines::opens_section(mid[0], sections::section_names()[k]),
        forall|i: int| 1 <= i < mid.len() ==> !lines::opens_entry(#[trigger] mid[i]),
        other.len() > 0,
        lines::opens_section(other[0], sections::section_names()[k]),
        forall|i: int| 1 <= i < other.len() ==> !lines::opens_entry(#[trigger] other[i]),
        forall|i: int|
            0 <= i < a.len() ==> !lines::opens_section(
                #[trigger] a[i],
                sections::section_names()[k],
            ),
        b.len() > 0 ==> lines::opens_entry(b[0]),
    ensures
        merge::merged_lines(a + mid + b, content).flatten() == merge::merged_lines(
            a + other + b,
            content,
        ).flatten(),
        merge::merged_lines(a + mid + b, content)[a.len() as int] == content[k],
        forall|m: int|
            0 <= m < 3 ==> sections::has_section(
                a + mid + b,
                #[trigger] sections::section_names()[m],
            ) == sections::has_section(a + other + b, sections::section_names()[m]),
{
    let one = a + mid + b;
    let two = a + other + b;
    let names = sections::section_names();
    let x = merge::merged_lines(one, content);
    let y = merge::merged_lines(two, content);
    let p = (a.len() + mid.len()) as int;
    let q = (a.len() + other.len()) as int;
    assert forall|m: int| 0 <= m < 3 implies {
        &&& sections::has_section(one, #[trigger] names[m]) == sections::has_section(two, names[m])
        &&& forall|i: int|
            0 <= i < a.len() ==> #[trigger] merge::begins(one, m, i) == merge::begins(two, m, i)
        &&& forall|i: int|
            0 <= i < a.len() ==> #[trigger] merge::continues(one, m, i) == merge::continues(
                two,
                m,
                i,
            )
        &&& forall|i: int|
            p <= i < one.len() ==> #[trigger] merge::begins(one, m, i) == merge::begins(
                two,
                m,
                i - p + q,
            )
        &&& forall|i: int|
            p <= i < one.len() ==> #[trigger] merge::continues(one, m, i) == merge::continues(
                two,
                m,
                i - p + q,
            )
        &&& m != k ==> forall|i: int| a.len() <= i < p ==> !(#[trigger] merge::begins(one, m, i))
        &&& m != k ==> forall|i: int| a.len() <= i < q ==> !(#[trigger] merge::begins(two, m, i))
    } by {
        lemma_around(a, mid, b, k, m);
        lemma_around(a, other, b, k, m);
        sections::lemma_next_header(a, 0, names[m]);
        sections::lemma_next_header(b, 0, names[m]);
    }
    lemma_around(a, mid, b, k, k);
    lemma_around(a, other, b, k, k);
    assert(names[0] == names[0] && names[1] == names[1] && names[2] == names[2]);
    assert forall|i: int| 0 <= i < a.len() implies #[trigger] x[i] == y[i] by {
        assert(one[i] == two[i]);
        assert(merge::begins(one, 0, i) == merge::begins(two, 0, i));
        assert(merge::begins(one, 1, i) == merge::begins(two, 1, i));
        assert(merge::begins(one, 2, i) == merge::begins(two, 2, i));
        assert(merge::continues(one, 0, i) == merge::continues(two, 0, i));
        assert(merge::continues(one, 1, i) == merge::continues(two, 1, i));
        assert(merge::continues(one, 2, i) == merge::continues(two, 2, i));
    }
    assert forall|i: int| p <= i < one.len() implies #[trigger] x[i] == y[i - p + q] by {
        assert(one[i] == b[i - p]);
        assert(two[i - p + q] == b[i - p]);
        assert(merge::begins(one, 0, i) == merge::begins(two, 0, i - p + q));
        assert(merge::begins(one, 1, i) == merge::begins(two, 1, i - p + q));
        assert(merge::begins(one, 2, i) == merge::begins(two, 2, i - p + q));
        assert(merge::continues(one, 0, i) == merge::continues(two, 0, i - p + q));
        assert(merge::continues(one, 1, i) == merge::continues(two, 1, i - p + q));
        assert(merge::continues(one, 2, i) == merge::continues(two, 2, i - p + q));
    }
    lemma_middle(x, a.len() as int, p, content[k], one, content, k);
    lemma_middle(y, a.len() as int, q, content[k], two, content, k);
    assert(x.take(a.len() as int) =~= y.take(a.len() as int));
    assert(x.skip(p) =~= y.skip(q)) by {
        assert forall|j: int| 0 <= j < b.len() implies x.skip(p)[j] == y.skip(q)[j] by {
            assert(x[p + j] == y[q + j]);
        }
    }
}

/// What stands for the lines from `from` up to `to` is the content of section `k`.
proof fn lemma_middle(
    out: Seq<Seq<char>>,
    from: int,
    to: int,
    block: Seq<char>,
    ls: Seq<Seq<char>>,
    content: Seq<Seq<char>>,
    k: int,
)
    requires
        0 <= k < 3,
        0 <= from < to <= ls.len(),
        out == merge::merged_lines(ls, content),
        content.len() == 3,
        block == content[k],
        sections::section_start(ls, sections::section_names()[k]) == from,
        sections::section_end(ls, sections::section_names()[k]) == to,
        forall|m: int, i: int|
            0 <= m < 3 && m != k && from <= i < to ==> !(#[trigger] merge::begins(ls, m, i)),
    ensures
        out[from] == block,
        out.flatten() == out.take(from).flatten() + block + out.skip(to).flatten(),
{
    assert(merge::begins(ls, k, from));
    assert forall|i: int| from <= i < to implies #[trigger] out[i] == if i == from {
        block
    } else {
        Seq::<char>::empty()
    } by {
        assert(merge::begins(ls, 0, i) == (k == 0 && i == from));
        assert(merge::begins(ls, 1, i) == (k == 1 && i == from));
        assert(merge::begins(ls, 2, i) == (k == 2 && i == from));
        if i > from {
            assert(merge::continues(ls, k, i));
        }
    }
    let here = seq![block];
    let rest = out.subrange(from + 1, to);
    merge::lemma_flatten_empties(rest);
    here.lemma_flatten_one_element();
    assert(out =~= out.take(from) + (here + (rest + out.skip(to))));
    vstd::seq_lib::lemma_flatten_concat(out.take(from), here + (rest + out.skip(to)));
    vstd::seq_lib::lemma_flatten_concat(here, rest + out.skip(to));
    vstd::seq_lib::lemma_flatten_concat(rest, out.skip(to));
    assert(out.flatten() =~= out.take(from).flatten() + block + out.skip(to).flatten());
}

/// A text whose only line feed is its last character is one line.
pub(crate) proof fn lemma_one_line(line: Seq<char>)
    requires
        line.len() > 0,
        line.last() == '\n',
        forall|j: int| 0 <= j < line.len() - 1 ==> #[trigger] line[j] != '\n',
    ensures
        lines::lines(line) == seq![line],
{
    lemma_one_line_len(line);
    assert(line.take(line.len() as int) =~= line);
    assert(line.skip(line.len() as int) =~= Seq::<char>::empty());
    assert(lines::lines(Seq::<char>::empty()) =~= Seq::<Seq<char>>::empty());
    assert(lines::lines(line) =~= seq![line]);
}

/// A text whose only line feed is its last character is as long as its first line.
proof fn lemma_one_line_len(line: Seq<char>)
    requires
        line.len() > 0,
        line.last() == '\n',
        forall|j: int| 0 <= j < line.len() - 1 ==> #[trigger] line[j] != '\n',
    ensures
        lines::line_len(line) == line.len(),
    decreases line.len(),
{
    if line.len() > 1 {
        let rest = line.drop_first();
        assert(line[0] != '\n');
        assert forall|j: int| 0 <= j < rest.len() - 1 implies #[trigger] rest[j] != '\n' by {
            assert(rest[j] == line[j + 1]);
        }
        lemma_one_line_len(rest);
    }
}

/// A line made of a section's name, a colon and `rest` opens the section, where `rest` is empty
/// or starts with a blank, a tab or a number sign.
proof fn lemma_header_line(k: int, rest: Seq<char>)
    requires
        0 <= k < 3,
        !rest.contains('\n'),
        rest.len() == 0 || rest[0] == ' ' || rest[0] == '\t' || rest[0] == '#',
    ensures
        ({
            let line = (sections::section_names()[k].push(':') + rest).push('\n');
            &&& lines::lines(line) == seq![line]
            &&& lines::opens_section(line, sections::section_names()[k])
            &&& merge_laws::is_closed(line)
        }),
{
    let name = sections::section_names()[k];
    let n = name.len() as int;
    let line = (name.push(':') + rest).push('\n');
    sections::lemma_section_names();
    reveal_strlit("proxies");
    reveal_strlit("proxy-groups");
    reveal_strlit("rules");
    assert forall|j: int| 0 <= j < line.len() - 1 implies #[trigger] line[j] != '\n' by {
        if j > n {
            assert(line[j] == rest[j - n - 1]);
            assert(rest.contains(rest[j - n - 1]));
        }
    }
    lemma_one_line(line);
    assert(name.push(':') =~= line.subrange(0, n + 1));
    line_laws::header_on_its_characters(line, name);
    if rest.len() > 0 {
        assert(line[n + 1] == rest[0]);
    }
}

/// Text behind the header of a section, divided where the section is over.
proof fn lemma_divided(ls: Seq<Seq<char>>) -> (e: int)
    ensures
        0 <= e <= ls.len(),
        forall|i: int| 0 <= i < e ==> !lines::opens_entry(#[trigger] ls[i]),
        e < ls.len() ==> lines::opens_entry(ls[e]),
        e == sections::next_entry(ls, 0),
{
    sections::lemma_next_entry(ls, 0);
    sections::next_entry(ls, 0)
}

/// Two texts that differ only in what section `k` holds, merged.
proof fn lemma_old_section_leaves_no_trace(
    before: Seq<char>,
    one: Seq<char>,
    two: Seq<char>,
    after: Seq<char>,
    content: Seq<Seq<char>>,
    k: int,
)
    requires
        0 <= k < 3,
        content.len() == 3,
        merge_laws::is_closed(before),
        forall|i: int|
            0 <= i < lines::lines(before).len() ==> !lines::opens_section(
                #[trigger] lines::lines(before)[i],
                sections::section_names()[k],
            ),
        one.len() > 0 && merge_laws::is_closed(one),
        lines::opens_section(lines::lines(one)[0], sections::section_names()[k]),
        forall|i: int|
            1 <= i < lines::lines(one).len() ==> !lines::opens_entry(
                #[trigger] lines::lines(one)[i],
            ),
        two.len() > 0 && merge_laws::is_closed(two),
        lines::opens_section(lines::lines(two)[0], sections::section_names()[k]),
        forall|i: int|
            1 <= i < lines::lines(two).len() ==> !lines::opens_entry(
                #[trigger] lines::lines(two)[i],
            ),
    ensures
        merge::merged_text(before + one + after, content) == merge::merged_text(
            before + two + after,
            content,
        ),
        merge::merged_lines(lines::lines(before + one + after), content)[lines::lines(
            before,
        ).len() as int] == content[k],
{
    let a = lines::lines(before);
    let c = lines::lines(after);
    let e = lemma_divided(c);
    let m1 = lines::lines(one) + c.take(e);
    let m2 = lines::lines(two) + c.take(e);
    let b = c.skip(e);
    lines::lemma_line_len(one);
    lines::lemma_line_len(two);
    assert(lines::lines(one).len() > 0 && lines::lines(two).len() > 0);
    assert((before + one).last() == one.last());
    assert((before + two).last() == two.last());
    merge_laws::lines_of_concatenation(before, one);
    merge_laws::lines_of_concatenation(before + one, after);
    merge_laws::lines_of_concatenation(before, two);
    merge_laws::lines_of_concatenation(before + two, after);
    assert(lines::lines(before + one + after) =~= a + m1 + b);
    assert(lines::lines(before + two + after) =~= a + m2 + b);
    assert(m1[0] == lines::lines(one)[0]);
    assert(m2[0] == lines::lines(two)[0]);
    assert forall|i: int| 1 <= i < m1.len() implies !lines::opens_entry(#[trigger] m1[i]) by {
        if i < lines::lines(one).len() {
            assert(m1[i] == lines::lines(one)[i]);
        } else {
            assert(m1[i] == c[i - lines::lines(one).len()]);
        }
    }
    assert forall|i: int| 1 <= i < m2.len() implies !lines::opens_entry(#[trigger] m2[i]) by {
        if i < lines::lines(two).len() {
            assert(m2[i] == lines::lines(two)[i]);
        } else {
            assert(m2[i] == c[i - lines::lines(two).len()]);
        }
    }
    lemma_same_around(a, m1, m2, b, content, k);
    let names = sections::section_names();
    assert(names[0] == names[0] && names[1] == names[1] && names[2] == names[2]);
    reveal_with_fuel(merge::with_missing, 4);
}

/// Where no line of a text starts with a section's name and a colon, none opens the section.
proof fn lemma_no_header(text: Seq<char>, section: Seq<char>)
    requires
        forall|i: int|
            0 <= i < lines::lines(text).len() ==> !section.push(':').is_prefix_of(
                #[trigger] lines::lines(text)[i],
            ),
    ensures
        forall|i: int|
            0 <= i < lines::lines(text).len() ==> !lines::opens_section(
                #[trigger] lines::lines(text)[i],
                section,
            ),
{
    assert forall|i: int| 0 <= i < lines::lines(text).len() implies !lines::opens_section(
        #[trigger] lines::lines(text)[i],
        section,
    ) by {
        line_laws::header_on_its_characters(lines::lines(text)[i], section);
    }
}

/// What stands behind the name and the colon of a section does not count: a merge gives what it
/// gives where nothing stands there. The first line that starts with the name and a colon is
/// meant, and a blank, a tab or a number sign comes next on it.
pub proof fn rest_of_a_header_does_not_count(
    before: Seq<char>,
    rest: Seq<char>,
    after: Seq<char>,
    content: Seq<Seq<char>>,
    k: int,
)
    requires
        0 <= k < 3,
        content.len() == 3,
        before.len() == 0 || before.last() == '\n',
        forall|i: int|
            0 <= i < lines::lines(before).len()
                ==> !sections::section_names()[k].push(':').is_prefix_of(
                #[trigger] lines::lines(before)[i],
            ),
        rest.len() > 0,
        rest[0] == ' ' || rest[0] == '\t' || rest[0] == '#',
        !rest.contains('\n'),
    ensures
        ({
            let name = sections::section_names()[k];
            merge::merged_text(before + (name.push(':') + rest).push('\n') + after, content)
                == merge::merged_text(before + name.push(':').push('\n') + after, content)
        }),
{
    let name = sections::section_names()[k];
    let none = Seq::<char>::empty();
    lemma_no_header(before, name);
    lemma_header_line(k, rest);
    lemma_header_line(k, none);
    assert(name.push(':') + none =~= name.push(':'));
    lemma_old_section_leaves_no_trace(
        before,
        (name.push(':') + rest).push('\n'),
        name.push(':').push('\n'),
        after,
        content,
        k,
    );
}

/// The old lines of a section do not count: a merge gives what it gives where the section has
/// nothing but its header. None of them opens a top-level entry.
pub proof fn old_lines_of_a_section_do_not_count(
    before: Seq<char>,
    rest: Seq<char>,
    inner: Seq<char>,
    after: Seq<char>,
    content: Seq<Seq<char>>,
    k: int,
)
    requires
        0 <= k < 3,
        content.len() == 3,
        before.len() == 0 || before.last() == '\n',
        forall|i: int|
            0 <= i < lines::lines(before).len()
                ==> !sections::section_names()[k].push(':').is_prefix_of(
                #[trigger] lines::lines(before)[i],
            ),
        rest.len() == 0 || rest[0] == ' ' || rest[0] == '\t' || rest[0] == '#',
        !rest.contains('\n'),
        inner.len() == 0 || inner.last() == '\n',
        forall|i: int|
            0 <= i < lines::lines(inner).len() ==> !lines::opens_entry(
                #[trigger] lines::lines(inner)[i],
            ),
    ensures
        ({
            let header = (sections::section_names()[k].push(':') + rest).push('\n');
            merge::merged_text(before + (header + inner) + after, content) == merge::merged_text(
                before + header + after,
                content,
            )
        }),
{
    let name = sections::section_names()[k];
    let header = (name.push(':') + rest).push('\n');
    lemma_no_header(before, name);
    lemma_header_line(k, rest);
    merge_laws::lines_of_concatenation(header, inner);
    let all = lines::lines(header + inner);
    assert(all[0] == header);
    assert forall|i: int| 1 <= i < all.len() implies !lines::opens_entry(#[trigger] all[i]) by {
        assert(all[i] == lines::lines(inner)[i - 1]);
    }
    if inner.len() > 0 {
        assert((header + inner).last() == inner.last());
    } else {
        assert(header + inner =~= header);
    }
    lemma_old_section_leaves_no_trace(before, header + inner, header, after, content, k);
}

/// The new content of a section comes where the section stands: behind what stands before it,
/// as it is, where that holds none of the three sections.
pub proof fn new_content_comes_where_the_section_stands(
    before: Seq<char>,
    rest: Seq<char>,
    after: Seq<char>,
    content: Seq<Seq<char>>,
    k: int,
)
    requires
        0 <= k < 3,
        content.len() == 3,
        before.len() == 0 || before.last() == '\n',
        forall|i: int, m: int|
            0 <= i < lines::lines(before).len() && 0 <= m < 3
                ==> !(#[trigger] sections::section_names()[m]).push(':').is_prefix_of(
                #[trigger] lines::lines(before)[i],
            ),
        rest.len() == 0 || rest[0] == ' ' || rest[0] == '\t' || rest[0] == '#',
        !rest.contains('\n'),
    ensures
        ({
            let header = (sections::section_names()[k].push(':') + rest).push('\n');
            (before + content[k]).is_prefix_of(
                merge::merged_text(before + header + after, content),
            )
        }),
{
    let names = sections::section_names();
    let name = names[k];
    let header = (name.push(':') + rest).push('\n');
    let current = before + header + after;
    let ls = lines::lines(current);
    let a = lines::lines(before);
    assert forall|m: int| 0 <= m < 3 implies forall|i: int|
        0 <= i < a.len() ==> !lines::opens_section(#[trigger] a[i], #[trigger] names[m]) by {
        assert forall|i: int| 0 <= i < lines::lines(before).len() implies !names[m].push(
            ':',
        ).is_prefix_of(#[trigger] lines::lines(before)[i]) by {
            let other = names[m];
        }
        lemma_no_header(before, names[m]);
    }
    assert(names[k] == name);
    lemma_header_line(k, rest);
    lemma_old_section_leaves_no_trace(before, header, header, after, content, k);
    assert((before + header).last() == header.last());
    merge_laws::lines_of_concatenation(before, header);
    merge_laws::lines_of_concatenation(before + header, after);
    let out = merge::merged_lines(ls, content);
    let n = a.len() as int;
    assert forall|i: int| 0 <= i < n implies out[i] == #[trigger] a[i] by {
        assert(ls[i] == a[i]);
        assert forall|m: int| 0 <= m < 3 implies !merge::begins(ls, m, i) && !merge::continues(
            ls,
            m,
            i,
        ) by {
            let other = names[m];
            sections::lemma_next_header(ls, 0, other);
            let start = sections::section_start(ls, other);
            if start <= i {
                assert(ls[start] == a[start]);
            }
        }
    }
    assert(out.take(n) =~= a);
    lines::lines_make_up_text(before);
    lines::lemma_take_next(out, n);
    assert(out =~= out.take(n + 1) + out.skip(n + 1));
    vstd::seq_lib::lemma_flatten_concat(out.take(n + 1), out.skip(n + 1));
    merge_laws::lemma_with_missing_extends(out.flatten(), ls, content, 3);
    let text = merge::merged_text(current, content);
    let head = before + content[k];
    assert(out.take(n + 1).flatten() == head);
    assert(text.take(out.flatten().len() as int) =~= out.flatten());
    assert(head =~= text.subrange(0, head.len() as int)) by {
        assert forall|j: int| 0 <= j < head.len() implies head[j] == text[j] by {
            assert(out.flatten()[j] == head[j]);
            assert(text.take(out.flatten().len() as int)[j] == text[j]);
        }
    }
}

} // verus!

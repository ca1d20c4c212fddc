//! What YAML text can be read: `serde_yml` counts the columns of a line in a signed number of
//! 32 bits.

use vstd::prelude::*;
use crate::line_laws;
use crate::lines;
use crate::merge_laws;
use crate::text;

verus! {

/// The columns that are set aside for each line beside its bytes.
pub const LINE_COLUMNS: i32 = 10;

/// Whether each line of `text` stays within `limit`.
pub open spec fn readable(text: Seq<char>, limit: int) -> bool {
    forall|i: int|
        0 <= i < lines::lines(text).len() ==> text::byte_len(#[trigger] lines::lines(text)[i])
            + LINE_COLUMNS <= limit
}

/// Whether each line of `input` stays within `limit`.
pub fn is_readable(input: &str, limit: i32) -> (r: bool)
    ensures
        r == readable(input@, limit as int),
{
    let ranges = lines::line_ranges(input);
    let ghost all = lines::lines(input@);
    let mut i: usize = 0;
    while i < ranges.len()
        invariant
            i <= ranges@.len(),
            all == lines::lines(input@),
            ranges@.len() == all.len(),
            forall|j: int|
                0 <= j < ranges@.len() ==> (#[trigger] ranges@[j]).0 == lines::line_offset(all, j)
                    && ranges@[j].1 == lines::line_offset(all, j + 1),
            forall|j: int|
                0 <= j < i ==> text::byte_len(#[trigger] all[j]) + LINE_COLUMNS <= limit,
        decreases ranges.len() - i,
    {
        let (start, end) = ranges[i];
        proof {
            lines::lemma_take_next(all, i as int);
            text::lemma_encode_concat(all.take(i as int).flatten(), all[i as int]);
        }
        let bytes: usize = end - start;
        if bytes as i128 + LINE_COLUMNS as i128 > limit as i128 {
            return false;
        }
        i = i + 1;
    }
    true
}

/// A text that is short as a whole can be read.
pub proof fn short_text_is_readable(text: Seq<char>, limit: int)
    requires
        text::byte_len(text) + 10 <= limit,
    ensures
        readable(text, limit),
{
    let ls = lines::lines(text);
    assert forall|i: int| 0 <= i < ls.len() implies text::byte_len(#[trigger] ls[i]) + LINE_COLUMNS
        <= limit by {
        line_laws::lines_lie_side_by_side(text, i);
        if i + 1 < ls.len() {
            lines::lemma_offsets_grow(text, i + 1, ls.len() as int);
        }
    }
}

/// A text with a line that is too long cannot be read.
pub proof fn long_line_is_not_readable(before: Seq<char>, line: Seq<char>, limit: int)
    requires
        before.len() == 0 || before.last() == '\n',
        line.len() > 0,
        forall|j: int| 0 <= j < line.len() ==> #[trigger] line[j] != '\n',
        text::byte_len(line) + 10 > limit,
    ensures
        !readable(before + line, limit),
{
    let ls = lines::lines(before + line);
    merge_laws::lines_of_concatenation(before, line);
    lines::lemma_line_len_whole(line);
    assert(line.take(line.len() as int) =~= line);
    assert(lines::lines(line)[0] == line);
    let i = lines::lines(before).len() as int;
    assert(ls[i] == line);
}

/// A text can be read exactly if each of two parts of it can, where the first stops at the end
/// of a line.
pub proof fn text_is_readable_part_by_part(a: Seq<char>, b: Seq<char>, limit: int)
    requires
        a.len() == 0 || a.last() == '\n',
    ensures
        readable(a + b, limit) <==> readable(a, limit) && readable(b, limit),
{
    let x = lines::lines(a);
    let y = lines::lines(b);
    let all = lines::lines(a + b);
    merge_laws::lines_of_concatenation(a, b);
    if readable(a + b, limit) {
        assert forall|i: int| 0 <= i < x.len() implies text::byte_len(#[trigger] x[i])
            + LINE_COLUMNS <= limit by {
            assert(all[i] == x[i]);
        }
        assert forall|i: int| 0 <= i < y.len() implies text::byte_len(#[trigger] y[i])
            + LINE_COLUMNS <= limit by {
            assert(all[x.len() + i] == y[i]);
        }
    }
    if readable(a, limit) && readable(b, limit) {
        assert forall|i: int| 0 <= i < all.len() implies text::byte_len(#[trigger] all[i])
            + LINE_COLUMNS <= limit by {
            if i < x.len() {
                assert(all[i] == x[i]);
            } else {
                assert(all[i] == y[i - x.len()]);
            }
        }
    }
}

} // verus!

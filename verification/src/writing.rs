//! What YAML text can hold: `serde_yml` counts the bytes of a text, the columns of a line and
//! the lines that it writes in a signed number of 32 bits.

use vstd::prelude::*;
use serde_yml::Value;
use crate::text;
use crate::yaml;
use crate::yaml::{ValueParts, Yaml};

verus! {

/// The columns that are set aside for a value beside its text: quotes, an indicator, a number.
pub const LEAF_COLUMNS: i32 = 64;

/// The columns that are set aside for each level that a value is nested: the indentation, an
/// indicator, and a key that stands on the line of its value.
pub const LEVEL_COLUMNS: i32 = 1024;

/// The lines that are set aside for the beginning and the end of a document or a tagged value.
pub const DOCUMENT_LINES: i32 = 8;

/// The most bytes of a key that stands on the line of its value.
pub const SHORT_KEY_BYTES: usize = 128;

/// Whether a line is over at `c`.
pub open spec fn is_break(c: char) -> bool {
    c == '\n' || c == '\r' || c == '\u{85}' || c == '\u{2028}' || c == '\u{2029}'
}

/// Whether `c` can be written as it is.
pub open spec fn is_printable(c: char) -> bool {
    ||| c == '\n'
    ||| 0x20 <= c as u32 <= 0x7e
    ||| 0xa0 <= c as u32 && c != '\u{feff}' && c != '\u{fffe}' && c != '\u{ffff}'
}

/// The columns of `c` between single quotes: a single quote is doubled.
pub open spec fn quoted_sign(c: char) -> nat {
    if c == '\'' {
        2
    } else {
        1
    }
}

/// The columns of `c` between double quotes: what cannot stand there is written as a letter or
/// as its number behind a backslash.
pub open spec fn escaped_sign(c: char) -> nat {
    if c == '"' || c == '\\' || is_break(c) {
        2
    } else if is_printable(c) {
        1
    } else if c as u32 == 0 || 7 <= c as u32 <= 0xc || c as u32 == 0x1b {
        2
    } else if c as u32 <= 0xff {
        4
    } else {
        6
    }
}

/// The columns of `text` between single quotes.
pub open spec fn quoted_columns(text: Seq<char>) -> nat
    decreases text.len(),
{
    if text.len() == 0 {
        0
    } else {
        quoted_columns(text.drop_last()) + quoted_sign(text.last())
    }
}

/// The columns of `text` between double quotes.
pub open spec fn escaped_columns(text: Seq<char>) -> nat
    decreases text.len(),
{
    if text.len() == 0 {
        0
    } else {
        escaped_columns(text.drop_last()) + escaped_sign(text.last())
    }
}

/// How many breaks there are in `text`.
pub open spec fn breaks(text: Seq<char>) -> nat
    decreases text.len(),
{
    if text.len() == 0 {
        0
    } else {
        breaks(text.drop_last()) + if is_break(text.last()) {
            1nat
        } else {
            0nat
        }
    }
}

/// Whether `text` has a sign that cannot be written as it is.
pub open spec fn has_unprintable(text: Seq<char>) -> bool {
    exists|i: int| 0 <= i < text.len() && !is_printable(#[trigger] text[i])
}

/// The most columns that `text` takes beside its quotes. A text with a sign that cannot be
/// written as it is stands between double quotes, and one without such a sign or a break never
/// does.
pub open spec fn text_columns(text: Seq<char>) -> nat {
    if has_unprintable(text) {
        escaped_columns(text)
    } else if breaks(text) > 0 && quoted_columns(text) < escaped_columns(text) {
        escaped_columns(text)
    } else {
        quoted_columns(text)
    }
}

/// Whether `c` stands in a tag as it is.
pub open spec fn is_tag_sign(c: char) -> bool {
    ||| 'a' <= c <= 'z' || 'A' <= c <= 'Z' || '0' <= c <= '9'
    ||| c == '_' || c == '-' || c == ';' || c == '/' || c == '?' || c == ':' || c == '@'
    ||| c == '&' || c == '=' || c == '+' || c == '$' || c == ',' || c == '.' || c == '~'
    ||| c == '*' || c == '\'' || c == '(' || c == ')' || c == '[' || c == ']'
}

/// The columns of `c` in a tag: three for each byte of a sign that does not stand there as it
/// is.
pub open spec fn tag_sign(c: char) -> nat {
    if is_tag_sign(c) {
        1
    } else {
        3 * text::byte_len(seq![c])
    }
}

/// The columns of the tag `tag`.
pub open spec fn tag_columns(tag: Seq<char>) -> nat
    decreases tag.len(),
{
    if tag.len() == 0 {
        0
    } else {
        tag_columns(tag.drop_last()) + tag_sign(tag.last())
    }
}

/// Whether no line of the text for `yaml` takes more than `room` columns.
pub open spec fn fits(yaml: Yaml, room: int) -> bool
    decreases yaml,
{
    match yaml {
        Yaml::Text(text) => text_columns(text) + LEAF_COLUMNS <= room,
        Yaml::List(items) => {
            &&& LEVEL_COLUMNS <= room
            &&& forall|i: int|
                0 <= i < items.len() ==> fits(#[trigger] items[i], room - LEVEL_COLUMNS)
        },
        Yaml::Object(entries) => {
            &&& LEVEL_COLUMNS <= room
            &&& forall|i: int|
                0 <= i < entries.len() ==> fits((#[trigger] entries[i]).0, room - LEVEL_COLUMNS)
                    && fits(entries[i].1, room - LEVEL_COLUMNS)
        },
        Yaml::Tagged(tag, inner) => fits(*inner, room - LEVEL_COLUMNS - tag_columns(tag)),
        _ => LEAF_COLUMNS <= room,
    }
}

/// Whether every text in `yaml` takes fewer than `limit` bytes.
pub open spec fn texts_within(yaml: Yaml, limit: int) -> bool
    decreases yaml,
{
    match yaml {
        Yaml::Text(text) => text::byte_len(text) < limit,
        Yaml::List(items) => forall|i: int|
            0 <= i < items.len() ==> texts_within(#[trigger] items[i], limit),
        Yaml::Object(entries) => forall|i: int|
            0 <= i < entries.len() ==> texts_within((#[trigger] entries[i]).0, limit)
                && texts_within(entries[i].1, limit),
        Yaml::Tagged(_, inner) => texts_within(*inner, limit),
        _ => true,
    }
}

/// The most lines that `text` takes beside the one that it begins on: one for each break, and
/// one more where there is any.
pub open spec fn text_lines(text: Seq<char>) -> nat {
    if breaks(text) == 0 {
        0
    } else {
        breaks(text) + 1
    }
}

/// Whether the key `yaml` stands on the line of its value.
pub open spec fn is_short_key(yaml: Yaml) -> bool {
    match yaml {
        Yaml::Text(text) => breaks(text) == 0 && text::byte_len(text) <= SHORT_KEY_BYTES,
        Yaml::Null => true,
        Yaml::Bool(_) => true,
        Yaml::Number(_) => true,
        _ => false,
    }
}

/// The most lines that the text for `yaml` takes beside the one that it begins on. A tagged
/// value has as many lines set aside as a document.
pub open spec fn value_lines(yaml: Yaml) -> nat
    decreases yaml,
{
    match yaml {
        Yaml::Text(text) => text_lines(text),
        Yaml::List(items) => list_lines(items),
        Yaml::Object(entries) => entry_lines(entries),
        Yaml::Tagged(_, inner) => DOCUMENT_LINES as nat + value_lines(*inner),
        _ => 0,
    }
}

/// The most lines that the items of a list take.
pub open spec fn list_lines(items: Seq<Yaml>) -> nat
    decreases items,
{
    if items.len() == 0 {
        0
    } else {
        list_lines(items.drop_last()) + 1 + value_lines(items.last())
    }
}

/// The most lines that the entries of an object take.
pub open spec fn entry_lines(entries: Seq<(Yaml, Yaml)>) -> nat
    decreases entries,
{
    if entries.len() == 0 {
        0
    } else {
        entry_lines(entries.drop_last()) + key_lines(entries.last().0) + value_lines(
            entries.last().0,
        ) + value_lines(entries.last().1)
    }
}

/// The lines on which an entry with the key `key` begins: one, or one for the key and one for
/// the value.
pub open spec fn key_lines(key: Yaml) -> nat {
    if is_short_key(key) {
        1
    } else {
        2
    }
}

/// Whether the text for `yaml` stays within `limit`, in the bytes of each text, in the columns
/// of each line and in its lines.
pub open spec fn writable(yaml: Yaml, limit: int) -> bool {
    texts_within(yaml, limit) && fits(yaml, limit) && value_lines(yaml) + DOCUMENT_LINES <= limit
}

/// The first items take no more lines than all.
proof fn lemma_list_lines(items: Seq<Yaml>, i: int)
    requires
        0 <= i <= items.len(),
    ensures
        list_lines(items.take(i)) <= list_lines(items),
        i < items.len() ==> list_lines(items.take(i + 1)) == list_lines(items.take(i)) + 1
            + value_lines(items[i]),
    decreases items.len() - i,
{
    if i < items.len() {
        lemma_list_lines(items, i + 1);
        assert(items.take(i + 1).drop_last() =~= items.take(i));
    } else {
        assert(items.take(i) =~= items);
    }
}

/// The first entries take no more lines than all.
proof fn lemma_entry_lines(entries: Seq<(Yaml, Yaml)>, i: int)
    requires
        0 <= i <= entries.len(),
    ensures
        entry_lines(entries.take(i)) <= entry_lines(entries),
        i < entries.len() ==> entry_lines(entries.take(i + 1)) == entry_lines(entries.take(i))
            + key_lines(entries[i].0) + value_lines(entries[i].0) + value_lines(entries[i].1),
    decreases entries.len() - i,
{
    if i < entries.len() {
        lemma_entry_lines(entries, i + 1);
        assert(entries.take(i + 1).drop_last() =~= entries.take(i));
    } else {
        assert(entries.take(i) =~= entries);
    }
}

/// Nothing can be written where there is no room at all.
proof fn lemma_no_room(yaml: Yaml, room: int)
    requires
        room < 0,
    ensures
        !fits(yaml, room),
    decreases yaml,
{
    if let Yaml::Tagged(tag, inner) = yaml {
        lemma_no_room(*inner, room - LEVEL_COLUMNS - tag_columns(tag));
    }
}

/// Whether a line is over at `c`.
fn breaks_line(c: char) -> (r: bool)
    ensures
        r == is_break(c),
{
    c == '\n' || c == '\r' || c == '\u{85}' || c == '\u{2028}' || c == '\u{2029}'
}

/// Whether `c` can be written as it is.
fn prints(c: char) -> (r: bool)
    ensures
        r == is_printable(c),
{
    let code: u32 = c as u32;
    c == '\n' || (0x20 <= code && code <= 0x7e) || (0xa0 <= code && c != '\u{feff}' && c
        != '\u{fffe}' && c != '\u{ffff}')
}

/// The columns of `c` between double quotes.
fn escaped_width(c: char) -> (r: i128)
    ensures
        r == escaped_sign(c),
{
    let code: u32 = c as u32;
    if c == '"' || c == '\\' || breaks_line(c) {
        2
    } else if prints(c) {
        1
    } else if code == 0 || (7 <= code && code <= 0xc) || code == 0x1b {
        2
    } else if code <= 0xff {
        4
    } else {
        6
    }
}

/// The most columns that `text` takes, and how many breaks there are in it.
fn measure(text: &str) -> (r: (i128, i128))
    ensures
        r.0 == text_columns(text@),
        r.1 == breaks(text@),
        0 <= r.0 <= 6 * usize::MAX,
        0 <= r.1 <= usize::MAX,
{
    let cs = text::chars(text);
    let count: usize = cs.len();
    let mut quoted: i128 = 0;
    let mut escaped: i128 = 0;
    let mut broken: i128 = 0;
    let mut unprintable = false;
    let mut i: usize = 0;
    while i < count
        invariant
            cs@ == text@,
            count == cs@.len(),
            i <= count,
            quoted == quoted_columns(text@.take(i as int)),
            escaped == escaped_columns(text@.take(i as int)),
            broken == breaks(text@.take(i as int)),
            unprintable == exists|j: int| 0 <= j < i && !is_printable(#[trigger] text@[j]),
            quoted <= 2 * i,
            escaped <= 6 * i,
            broken <= i,
        decreases count - i,
    {
        let c = cs[i];
        proof {
            assert(text@.take(i + 1).drop_last() =~= text@.take(i as int));
            assert(text@.take(i + 1).last() == c);
        }
        if c == '\'' {
            quoted = quoted + 2;
        } else {
            quoted = quoted + 1;
        }
        escaped = escaped + escaped_width(c);
        if breaks_line(c) {
            broken = broken + 1;
        }
        if !prints(c) {
            assert(!is_printable(text@[i as int]));
            unprintable = true;
        }
        i = i + 1;
    }
    assert(text@.take(i as int) =~= text@);
    if unprintable || (broken > 0 && quoted < escaped) {
        (escaped, broken)
    } else {
        (quoted, broken)
    }
}

/// Whether `c` stands in a tag as it is.
fn stands_in_tag(c: char) -> (r: bool)
    ensures
        r == is_tag_sign(c),
{
    ('a' <= c && c <= 'z') || ('A' <= c && c <= 'Z') || ('0' <= c && c <= '9') || c == '_' || c
        == '-' || c == ';' || c == '/' || c == '?' || c == ':' || c == '@' || c == '&' || c == '='
        || c == '+' || c == '$' || c == ',' || c == '.' || c == '~' || c == '*' || c == '\'' || c
        == '(' || c == ')' || c == '[' || c == ']'
}

/// The columns of the tag `tag`.
fn measure_tag(tag: &str) -> (r: i128)
    ensures
        r == tag_columns(tag@),
        0 <= r <= 12 * usize::MAX,
{
    let cs = text::chars(tag);
    let count: usize = cs.len();
    let mut columns: i128 = 0;
    let mut i: usize = 0;
    while i < count
        invariant
            cs@ == tag@,
            count == cs@.len(),
            i <= count,
            columns == tag_columns(tag@.take(i as int)),
            columns <= 12 * i,
        decreases count - i,
    {
        let c = cs[i];
        proof {
            assert(tag@.take(i + 1).drop_last() =~= tag@.take(i as int));
            assert(tag@.take(i + 1).last() == c);
        }
        if stands_in_tag(c) {
            columns = columns + 1;
        } else {
            columns = columns + 3 * text::width(c) as i128;
        }
        i = i + 1;
    }
    assert(tag@.take(i as int) =~= tag@);
    columns
}

/// Whether the key `value` stands on the line of its value.
fn short_key(value: &Value) -> (r: bool)
    ensures
        r == is_short_key(yaml::yaml_of(*value)),
{
    match yaml::parts(value) {
        ValueParts::Plain => true,
        ValueParts::Text(text) => {
            let (_, broken) = measure(text);
            broken == 0 && text::size(text) <= SHORT_KEY_BYTES
        },
        _ => false,
    }
}

/// What is left of `lines` lines when the text for `value` has been written, if no text in it
/// takes `limit` bytes, no line takes more than `room` columns, and there are lines enough.
fn spend(value: &Value, limit: i32, room: i128, lines: i128) -> (r: Option<i128>)
    requires
        i32::MIN <= room <= i32::MAX,
        i32::MIN - DOCUMENT_LINES <= lines <= i32::MAX,
    ensures
        ({
            let yaml = yaml::yaml_of(*value);
            let held = texts_within(yaml, limit as int) && fits(yaml, room as int)
                && value_lines(yaml) <= lines;
            match r {
                Some(rest) => held && rest == lines - value_lines(yaml),
                None => !held,
            }
        }),
    decreases yaml::yaml_of(*value),
{
    if lines < 0 {
        return None;
    }
    match yaml::parts(value) {
        ValueParts::Plain => {
            if room < LEAF_COLUMNS as i128 {
                None
            } else {
                Some(lines)
            }
        },
        ValueParts::Text(text) => {
            let (columns, broken) = measure(text);
            let needed: i128 = if broken == 0 {
                0
            } else {
                broken + 1
            };
            let bytes: usize = text::size(text);
            if bytes as i128 >= limit as i128 || room < columns + LEAF_COLUMNS as i128 || lines
                < needed {
                None
            } else {
                Some(lines - needed)
            }
        },
        ValueParts::Tagged(tag, inner) => {
            let columns: i128 = measure_tag(tag);
            if room < columns + LEVEL_COLUMNS as i128 {
                proof {
                    lemma_no_room(yaml::yaml_of(*inner), room - LEVEL_COLUMNS - columns);
                }
                None
            } else {
                proof {
                    let whole = yaml::yaml_of(*value);
                    assert(decreases_to!(whole => *whole->Tagged_1));
                }
                spend(
                    inner,
                    limit,
                    room - LEVEL_COLUMNS as i128 - columns,
                    lines - DOCUMENT_LINES as i128,
                )
            }
        },
        ValueParts::List(items) => {
            if room < LEVEL_COLUMNS as i128 {
                return None;
            }
            let ghost all = yaml::yaml_of(*value)->List_0;
            let mut left: i128 = lines;
            let mut i: usize = 0;
            assert(all.take(0) =~= Seq::empty());
            while i < items.len()
                invariant
                    i <= items@.len(),
                    yaml::yaml_of(*value) == Yaml::List(all),
                    all.len() == items@.len(),
                    forall|j: int|
                        0 <= j < all.len() ==> #[trigger] all[j] == yaml::yaml_of(items@[j]),
                    forall|j: int|
                        0 <= j < i ==> fits(#[trigger] all[j], room - LEVEL_COLUMNS)
                            && texts_within(all[j], limit as int),
                    LEVEL_COLUMNS <= room <= i32::MAX,
                    0 <= left <= i32::MAX,
                    left == lines - list_lines(all.take(i as int)),
                decreases items.len() - i,
            {
                proof {
                    lemma_list_lines(all, i as int);
                    lemma_list_lines(all, i + 1);
                    let whole = yaml::yaml_of(*value);
                    assert(all[i as int] == yaml::yaml_of(items@[i as int]));
                    assert(decreases_to!(whole => whole->List_0[i as int]));
                }
                match spend(&items[i], limit, room - LEVEL_COLUMNS as i128, left - 1) {
                    Some(rest) => {
                        left = rest;
                    },
                    None => {
                        return None;
                    },
                }
                i = i + 1;
            }
            assert(all.take(i as int) =~= all);
            Some(left)
        },
        ValueParts::Object(mapping) => {
            if room < LEVEL_COLUMNS as i128 {
                return None;
            }
            let entries = yaml::entries(mapping);
            let ghost all = yaml::entries_of(*mapping);
            let mut left: i128 = lines;
            let mut i: usize = 0;
            assert(all.take(0) =~= Seq::empty());
            while i < entries.len()
                invariant
                    i <= entries@.len(),
                    yaml::yaml_of(*value) == Yaml::Object(all),
                    all.len() == entries@.len(),
                    forall|j: int|
                        0 <= j < all.len() ==> #[trigger] all[j] == (
                            yaml::yaml_of(*entries@[j].0),
                            yaml::yaml_of(*entries@[j].1),
                        ),
                    forall|j: int|
                        0 <= j < i ==> fits((#[trigger] all[j]).0, room - LEVEL_COLUMNS) && fits(
                            all[j].1,
                            room - LEVEL_COLUMNS,
                        ) && texts_within(all[j].0, limit as int) && texts_within(
                            all[j].1,
                            limit as int,
                        ),
                    LEVEL_COLUMNS <= room <= i32::MAX,
                    0 <= left <= i32::MAX,
                    left == lines - entry_lines(all.take(i as int)),
                decreases entries.len() - i,
            {
                let (key, item) = entries[i];
                proof {
                    lemma_entry_lines(all, i as int);
                    lemma_entry_lines(all, i + 1);
                    let whole = yaml::yaml_of(*value);
                    assert(all[i as int] == (yaml::yaml_of(*key), yaml::yaml_of(*item)));
                    assert(decreases_to!(whole => whole->Object_0[i as int].0));
                    assert(decreases_to!(whole => whole->Object_0[i as int].1));
                }
                let begun: i128 = if short_key(key) {
                    1
                } else {
                    2
                };
                let after_key = match spend(
                    key,
                    limit,
                    room - LEVEL_COLUMNS as i128,
                    left - begun,
                ) {
                    Some(rest) => rest,
                    None => {
                        return None;
                    },
                };
                match spend(item, limit, room - LEVEL_COLUMNS as i128, after_key) {
                    Some(rest) => {
                        left = rest;
                    },
                    None => {
                        return None;
                    },
                }
                i = i + 1;
            }
            assert(all.take(i as int) =~= all);
            Some(left)
        },
    }
}

/// Whether the text for `value` stays within `limit`, in the bytes of each text, in the columns
/// of each line and in its lines.
pub fn is_writable(value: &Value, limit: i32) -> (r: bool)
    ensures
        r == writable(yaml::yaml_of(*value), limit as int),
{
    spend(value, limit, limit as i128, limit as i128 - DOCUMENT_LINES as i128).is_some()
}

/// A measure of how much there is to write.
pub open spec fn weight(yaml: Yaml) -> nat
    decreases yaml,
{
    match yaml {
        Yaml::Text(text) => 64 + 6 * text.len(),
        Yaml::List(items) => 1024 + list_weight(items),
        Yaml::Object(entries) => 1024 + entries_weight(entries),
        Yaml::Tagged(tag, inner) => 1024 + 12 * tag.len() + weight(*inner),
        _ => 64,
    }
}

/// How much there is to write of the items of a list.
pub open spec fn list_weight(items: Seq<Yaml>) -> nat
    decreases items,
{
    if items.len() == 0 {
        0
    } else {
        list_weight(items.drop_last()) + weight(items.last())
    }
}

/// How much there is to write of the entries of an object.
pub open spec fn entries_weight(entries: Seq<(Yaml, Yaml)>) -> nat
    decreases entries,
{
    if entries.len() == 0 {
        0
    } else {
        entries_weight(entries.drop_last()) + weight(entries.last().0) + weight(entries.last().1)
    }
}

/// A text takes at most six columns for each sign, at most four bytes, and at most one line.
proof fn lemma_text_weight(text: Seq<char>)
    ensures
        quoted_columns(text) <= 2 * text.len(),
        escaped_columns(text) <= 6 * text.len(),
        breaks(text) <= text.len(),
        text::byte_len(text) <= 4 * text.len(),
    decreases text.len(),
{
    if text.len() > 0 {
        lemma_text_weight(text.drop_last());
        lemma_sign_bytes(text.last());
        assert(text =~= text.drop_last() + seq![text.last()]);
        text::lemma_encode_concat(text.drop_last(), seq![text.last()]);
    } else {
        assert(vstd::utf8::encode_utf8(text) =~= Seq::<u8>::empty());
    }
}

/// A sign takes at most four bytes.
proof fn lemma_sign_bytes(c: char)
    ensures
        text::byte_len(seq![c]) <= 4,
{
    reveal_with_fuel(vstd::utf8::encode_utf8, 2);
    let one = seq![c];
    assert(one.drop_first() =~= Seq::<char>::empty());
    assert(vstd::utf8::encode_utf8(one) =~= vstd::utf8::encode_scalar(c as u32));
}

/// A tag takes at most twelve columns for each sign.
proof fn lemma_tag_weight(tag: Seq<char>)
    ensures
        tag_columns(tag) <= 12 * tag.len(),
    decreases tag.len(),
{
    if tag.len() > 0 {
        lemma_tag_weight(tag.drop_last());
        lemma_sign_bytes(tag.last());
    }
}

/// An item weighs no more than its list.
proof fn lemma_item_weight(items: Seq<Yaml>, i: int)
    requires
        0 <= i < items.len(),
    ensures
        weight(items[i]) <= list_weight(items),
    decreases items.len(),
{
    if i < items.len() - 1 {
        lemma_item_weight(items.drop_last(), i);
    }
}

/// An entry weighs no more than its object.
proof fn lemma_entry_weight(entries: Seq<(Yaml, Yaml)>, i: int)
    requires
        0 <= i < entries.len(),
    ensures
        weight(entries[i].0) + weight(entries[i].1) <= entries_weight(entries),
    decreases entries.len(),
{
    if i < entries.len() - 1 {
        lemma_entry_weight(entries.drop_last(), i);
    }
}

/// No value takes more lines than it weighs.
proof fn lemma_lines_weight(yaml: Yaml)
    ensures
        value_lines(yaml) + 2 <= weight(yaml),
    decreases yaml,
{
    match yaml {
        Yaml::Text(text) => {
            lemma_text_weight(text);
        },
        Yaml::List(items) => {
            lemma_list_lines_weight(items);
        },
        Yaml::Object(entries) => {
            lemma_entry_lines_weight(entries);
        },
        Yaml::Tagged(_, inner) => {
            lemma_lines_weight(*inner);
        },
        _ => {},
    }
}

/// No list takes more lines than its items weigh.
proof fn lemma_list_lines_weight(items: Seq<Yaml>)
    ensures
        list_lines(items) <= list_weight(items),
    decreases items,
{
    if items.len() > 0 {
        lemma_list_lines_weight(items.drop_last());
        lemma_lines_weight(items.last());
    }
}

/// No object takes more lines than its entries weigh.
proof fn lemma_entry_lines_weight(entries: Seq<(Yaml, Yaml)>)
    ensures
        entry_lines(entries) <= entries_weight(entries),
    decreases entries,
{
    if entries.len() > 0 {
        lemma_entry_lines_weight(entries.drop_last());
        lemma_lines_weight(entries.last().0);
        lemma_lines_weight(entries.last().1);
    }
}

/// No line of a value takes more columns than the value weighs.
proof fn lemma_columns_weight(yaml: Yaml, room: int)
    requires
        weight(yaml) <= room,
    ensures
        fits(yaml, room),
    decreases yaml,
{
    match yaml {
        Yaml::Text(text) => {
            lemma_text_weight(text);
        },
        Yaml::List(items) => {
            assert forall|i: int| 0 <= i < items.len() implies fits(
                #[trigger] items[i],
                room - LEVEL_COLUMNS,
            ) by {
                lemma_item_weight(items, i);
                lemma_columns_weight(items[i], room - LEVEL_COLUMNS);
            }
        },
        Yaml::Object(entries) => {
            assert forall|i: int| 0 <= i < entries.len() implies fits(
                (#[trigger] entries[i]).0,
                room - LEVEL_COLUMNS,
            ) && fits(entries[i].1, room - LEVEL_COLUMNS) by {
                lemma_entry_weight(entries, i);
                lemma_columns_weight(entries[i].0, room - LEVEL_COLUMNS);
                lemma_columns_weight(entries[i].1, room - LEVEL_COLUMNS);
            }
        },
        Yaml::Tagged(tag, inner) => {
            lemma_tag_weight(tag);
            lemma_columns_weight(*inner, room - LEVEL_COLUMNS - tag_columns(tag));
        },
        _ => {},
    }
}

/// No text in a value takes more bytes than the value weighs.
proof fn lemma_bytes_weight(yaml: Yaml, limit: int)
    requires
        weight(yaml) <= limit,
    ensures
        texts_within(yaml, limit),
    decreases yaml,
{
    match yaml {
        Yaml::Text(text) => {
            lemma_text_weight(text);
        },
        Yaml::List(items) => {
            assert forall|i: int| 0 <= i < items.len() implies texts_within(
                #[trigger] items[i],
                limit,
            ) by {
                lemma_item_weight(items, i);
                lemma_bytes_weight(items[i], limit);
            }
        },
        Yaml::Object(entries) => {
            assert forall|i: int| 0 <= i < entries.len() implies texts_within(
                (#[trigger] entries[i]).0,
                limit,
            ) && texts_within(entries[i].1, limit) by {
                lemma_entry_weight(entries, i);
                lemma_bytes_weight(entries[i].0, limit);
                lemma_bytes_weight(entries[i].1, limit);
            }
        },
        Yaml::Tagged(_, inner) => {
            lemma_bytes_weight(*inner, limit);
        },
        _ => {},
    }
}

/// A value of which there is little to write can be written, whatever it is.
pub proof fn light_value_is_writable(yaml: Yaml, limit: int)
    requires
        weight(yaml) + 8 <= limit,
    ensures
        writable(yaml, limit),
{
    lemma_bytes_weight(yaml, limit);
    lemma_columns_weight(yaml, limit);
    lemma_lines_weight(yaml);
}

} // verus!

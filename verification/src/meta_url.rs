//! The address of a subscription, with the flag that asks for a Mihomo configuration.

use vstd::prelude::*;
use url::{Position, Url};
use crate::text;

verus! {

/// An address of `url`.
#[verifier::external_type_specification]
#[verifier::external_body]
pub struct ExUrl(url::Url);

/// The text of an address in parts.
pub struct UrlParts {
    /// What stands before the query.
    pub base: Seq<char>,
    /// What stands after the question mark.
    pub query: Option<Seq<char>>,
    /// What stands after the number sign.
    pub fragment: Option<Seq<char>>,
}

/// The query of an address, empty if it has none.
pub open spec fn query_text(parts: UrlParts) -> Seq<char> {
    match parts.query {
        Some(query) => query,
        None => Seq::empty(),
    }
}

/// The text of an address up to its fragment.
pub open spec fn text_before_fragment(parts: UrlParts) -> Seq<char> {
    match parts.query {
        Some(query) => parts.base + (seq!['?'] + query),
        None => parts.base,
    }
}

/// The whole text of an address.
pub open spec fn url_text(parts: UrlParts) -> Seq<char> {
    match parts.fragment {
        Some(fragment) => text_before_fragment(parts) + (seq!['#'] + fragment),
        None => text_before_fragment(parts),
    }
}

/// Whether what stands before the query and what stands before the fragment of an address is
/// short enough to be passed over: `url` counts these bytes, and the sign behind them, in 32
/// bits.
pub open spec fn offsets_fit(parts: UrlParts) -> bool {
    &&& parts.query is Some ==> text::byte_len(parts.base) < u32::MAX
    &&& parts.fragment is Some ==> text::byte_len(text_before_fragment(parts)) < u32::MAX
}

/// The parts of an address that a `url::Url` holds.
pub uninterp spec fn url_parts(url: Url) -> UrlParts;

/// The key and value pairs that `Url::query_pairs` reads from the query of an address.
pub uninterp spec fn form_pairs(query: Seq<char>) -> Seq<(Seq<char>, Seq<char>)>;

/// The texts in a row of pairs.
pub open spec fn pair_texts(pairs: Seq<(String, String)>) -> Seq<(Seq<char>, Seq<char>)> {
    Seq::new(pairs.len(), |i: int| (pairs[i].0@, pairs[i].1@))
}

/// `text` without the spaces at its end.
pub open spec fn without_end_spaces(text: Seq<char>) -> Seq<char>
    decreases text.len(),
{
    if text.len() > 0 && text.last() == ' ' {
        without_end_spaces(text.drop_last())
    } else {
        text
    }
}

/// Whether no slash follows the first colon of `base`, the one behind the scheme.
pub open spec fn is_opaque(base: Seq<char>) -> bool {
    let colon = crate::lines::colon_at(base, 0);
    colon + 1 >= base.len() || base[colon + 1] != '/'
}

/// What stands before the query once the query is taken away. Where nothing follows it and no
/// slash follows the scheme, the spaces at its end go too.
pub open spec fn cleared_base(parts: UrlParts) -> Seq<char> {
    if parts.fragment is None && is_opaque(parts.base) {
        without_end_spaces(parts.base)
    } else {
        parts.base
    }
}

/// An address without its query.
pub open spec fn cleared(parts: UrlParts) -> UrlParts {
    UrlParts { base: cleared_base(parts), query: None, fragment: parts.fragment }
}

/// The sign for the hexadecimal digit `d`, in upper case.
pub open spec fn upper_hex(d: int) -> char {
    if d < 10 {
        (d + '0' as int) as char
    } else {
        (d - 10 + 'A' as int) as char
    }
}

/// How one byte is written in a query.
pub open spec fn form_byte(b: u8) -> Seq<char> {
    if 0x30 <= b <= 0x39 || 0x41 <= b <= 0x5a || 0x61 <= b <= 0x7a || b == 0x2a || b == 0x2d || b
        == 0x2e || b == 0x5f {
        seq![b as char]
    } else if b == 0x20 {
        seq!['+']
    } else {
        seq!['%', upper_hex(b as int / 16), upper_hex(b as int % 16)]
    }
}

/// How bytes are written in a query.
pub open spec fn form_bytes(bytes: Seq<u8>) -> Seq<char>
    decreases bytes.len(),
{
    if bytes.len() == 0 {
        Seq::empty()
    } else {
        form_bytes(bytes.drop_last()) + form_byte(bytes.last())
    }
}

/// How a text is written in a query.
pub open spec fn form_encoded(text: Seq<char>) -> Seq<char> {
    form_bytes(vstd::utf8::encode_utf8(text))
}

/// The query `query` with one more pair.
pub open spec fn with_pair(
    query: Option<Seq<char>>,
    key: Seq<char>,
    value: Seq<char>,
) -> Seq<char> {
    let before = match query {
        Some(text) => if text.len() > 0 {
            text.push('&')
        } else {
            text
        },
        None => Seq::empty(),
    };
    before + form_encoded(key) + seq!['='] + form_encoded(value)
}

/// The query `query` with more pairs.
pub open spec fn with_pairs(
    query: Option<Seq<char>>,
    pairs: Seq<(Seq<char>, Seq<char>)>,
) -> Option<Seq<char>>
    decreases pairs.len(),
{
    if pairs.len() == 0 {
        query
    } else {
        Some(
            with_pair(with_pairs(query, pairs.drop_last()), pairs.last().0, pairs.last().1),
        )
    }
}

/// Whether a query of `size` bytes has room in an address.
pub open spec fn has_room(parts: UrlParts, size: nat) -> bool {
    &&& text::byte_len(parts.base) < u32::MAX
    &&& parts.fragment is Some ==> text::byte_len(parts.base) + 1 + size < u32::MAX
}

/// Calls `Url::query_pairs` and takes the pairs as texts. What they are is a function of the
/// query alone, named [`form_pairs`]. It passes over what stands before the query and the
/// fragment, and panics where that is too long.
#[verifier::external_body]
fn query_pairs(url: &Url) -> (r: Vec<(String, String)>)
    requires
        offsets_fit(url_parts(*url)),
    ensures
        pair_texts(r@) == form_pairs(query_text(url_parts(*url))),
{
    url.query_pairs().into_owned().collect()
}

/// Calls `Url::set_query` with no query: the query is gone, and the rest stays, but for spaces
/// at the end of an address without a slash behind its scheme. No pair is left. It passes over
/// what stands before the fragment, and panics where that is too long.
#[verifier::external_body]
fn clear_query(url: &mut Url)
    requires
        offsets_fit(url_parts(*old(url))),
    ensures
        url_parts(*final(url)) == cleared(url_parts(*old(url))),
        form_pairs(query_text(url_parts(*final(url)))) == Seq::<(Seq<char>, Seq<char>)>::empty(),
{
    url.set_query(None);
}

/// Calls `Url::query_pairs_mut` and, on what it returns, `append_pair`: the query gets one more
/// pair at its end, the rest stays, and the pair is read back behind the others. Both panic
/// where the query has no room.
#[verifier::external_body]
fn append_pair(url: &mut Url, key: &str, value: &str)
    requires
        has_room(
            url_parts(*old(url)),
            text::byte_len(with_pair(url_parts(*old(url)).query, key@, value@)),
        ),
    ensures
        url_parts(*final(url)) == (UrlParts {
            query: Some(with_pair(url_parts(*old(url)).query, key@, value@)),
            ..url_parts(*old(url))
        }),
        form_pairs(query_text(url_parts(*final(url)))) == form_pairs(
            query_text(url_parts(*old(url))),
        ).push((key@, value@)),
{
    url.query_pairs_mut().append_pair(key, value);
}

/// Calls `Url::as_str`: the whole text of the address.
#[verifier::external_body]
fn as_str(url: &Url) -> (r: &str)
    ensures
        r@ == url_text(url_parts(*url)),
{
    url.as_str()
}

/// Calls `Url::index` with the positions behind the path and behind the query: the text of the
/// address up to its query, and up to its fragment.
#[verifier::external_body]
fn text_heads(url: &Url) -> (r: (&str, &str))
    ensures
        r.0@ == url_parts(*url).base,
        r.1@ == text_before_fragment(url_parts(*url)),
{
    (&url[..Position::AfterPath], &url[..Position::AfterQuery])
}

/// `pairs` without those whose key is the flag, and with the flag for Mihomo behind them.
pub open spec fn flagged(pairs: Seq<(Seq<char>, Seq<char>)>) -> Seq<(Seq<char>, Seq<char>)> {
    pairs.filter(|pair: (Seq<char>, Seq<char>)| pair.0 != "flag"@).push(("flag"@, "meta"@))
}

/// An address that asks for a Mihomo configuration: the pairs of its query are [`flagged`],
/// written anew, and the rest stays as with the query taken away.
pub open spec fn meta_parts(parts: UrlParts) -> UrlParts {
    UrlParts {
        query: with_pairs(None, flagged(form_pairs(query_text(parts)))),
        ..cleared(parts)
    }
}

/// Whether the query of an address can be read, and the address that asks for a Mihomo
/// configuration has room for its own.
pub open spec fn meta_url_fits(parts: UrlParts) -> bool {
    offsets_fit(parts) && has_room(parts, text::byte_len(query_text(meta_parts(parts))))
}

/// `pairs` without those whose key is the flag, and with the flag for Mihomo behind them.
pub fn meta_pairs(pairs: &Vec<(String, String)>) -> (r: Vec<(String, String)>)
    ensures
        pair_texts(r@) == flagged(pair_texts(pairs@)),
{
    let ghost all = pair_texts(pairs@);
    let ghost wanted = |pair: (Seq<char>, Seq<char>)| pair.0 != "flag"@;
    let mut r: Vec<(String, String)> = Vec::new();
    let mut i: usize = 0;
    assert(all.take(0) =~= Seq::empty());
    assert(pair_texts(r@) =~= all.take(0).filter(wanted));
    while i < pairs.len()
        invariant
            i <= pairs@.len(),
            all == pair_texts(pairs@),
            wanted == (|pair: (Seq<char>, Seq<char>)| pair.0 != "flag"@),
            pair_texts(r@) == all.take(i as int).filter(wanted),
        decreases pairs.len() - i,
    {
        let ghost before = r@;
        proof {
            assert(all.take(i + 1).drop_last() =~= all.take(i as int));
            assert(all.take(i + 1).last() == all[i as int]);
            reveal_with_fuel(Seq::filter, 2);
        }
        if !text::same(pairs[i].0.as_str(), "flag") {
            r.push((pairs[i].0.clone(), pairs[i].1.clone()));
            assert(pair_texts(r@) =~= pair_texts(before).push(all[i as int]));
        }
        i = i + 1;
    }
    assert(all.take(i as int) =~= all);
    let ghost before = r@;
    r.push(("flag".to_owned(), "meta".to_owned()));
    assert(pair_texts(r@) =~= pair_texts(before).push(("flag"@, "meta"@)));
    r
}

/// A query with fewer pairs takes no more bytes.
proof fn lemma_query_grows(pairs: Seq<(Seq<char>, Seq<char>)>, i: int)
    requires
        0 <= i <= pairs.len(),
    ensures
        query_size(pairs.take(i)) <= query_size(pairs),
    decreases pairs.len() - i,
{
    if i < pairs.len() {
        lemma_query_grows(pairs, i + 1);
        lemma_query_step(pairs, i);
    } else {
        assert(pairs.take(i) =~= pairs);
    }
}

/// The bytes that the query made of `pairs` takes.
pub open spec fn query_size(pairs: Seq<(Seq<char>, Seq<char>)>) -> nat {
    match with_pairs(None, pairs) {
        Some(query) => text::byte_len(query),
        None => 0,
    }
}

/// What one more pair adds to a query.
proof fn lemma_query_step(pairs: Seq<(Seq<char>, Seq<char>)>, i: int)
    requires
        0 <= i < pairs.len(),
    ensures
        with_pairs(None, pairs.take(i + 1)) == Some(
            with_pair(with_pairs(None, pairs.take(i)), pairs[i].0, pairs[i].1),
        ),
        i > 0 ==> query_size(pairs.take(i)) > 0,
        query_size(pairs.take(i + 1)) == query_size(pairs.take(i)) + (if i == 0 {
            0int
        } else {
            1int
        }) + text::byte_len(form_encoded(pairs[i].0)) + 1 + text::byte_len(
            form_encoded(pairs[i].1),
        ),
    decreases i,
{
    assert(pairs.take(i + 1).drop_last() =~= pairs.take(i));
    assert(pairs.take(i + 1).last() == pairs[i]);
    let before = match with_pairs(None, pairs.take(i)) {
        Some(query) => query,
        None => Seq::empty(),
    };
    let key = form_encoded(pairs[i].0);
    let value = form_encoded(pairs[i].1);
    if i > 0 {
        lemma_query_step(pairs, i - 1);
    } else {
        assert(pairs.take(0) =~= Seq::empty());
    }
    text::lemma_byte_len_covers(before);
    let head = if i > 0 {
        before.push('&')
    } else {
        before
    };
    assert(before.push('&') =~= before + seq!['&']);
    text::lemma_encode_concat(before, seq!['&']);
    text::lemma_one_byte('&');
    text::lemma_one_byte('=');
    text::lemma_encode_concat(head, key);
    text::lemma_encode_concat(head + key, seq!['=']);
    text::lemma_encode_concat(head + key + seq!['='], value);
}

/// How many bytes one byte takes in a query.
proof fn lemma_form_byte(b: u8)
    ensures
        text::byte_len(form_byte(b)) == form_byte(b).len(),
        form_byte(b).len() == 1 || form_byte(b).len() == 3,
{
    let high = upper_hex(b as int / 16);
    let low = upper_hex(b as int % 16);
    if form_byte(b).len() == 1 {
        assert(form_byte(b) =~= seq![form_byte(b)[0]]);
        text::lemma_one_byte(form_byte(b)[0]);
    } else {
        text::lemma_one_byte('%');
        text::lemma_one_byte(high);
        text::lemma_one_byte(low);
        text::lemma_encode_concat(seq!['%'], seq![high]);
        text::lemma_encode_concat(seq!['%'] + seq![high], seq![low]);
        assert(form_byte(b) =~= seq!['%'] + seq![high] + seq![low]);
    }
}

/// The number of bytes that `text` takes in a query.
fn encoded_size(text: &str) -> (r: u128)
    ensures
        r == text::byte_len(form_encoded(text@)),
        r <= 3 * usize::MAX,
{
    let bytes = text.as_bytes();
    let count: usize = bytes.len();
    let mut size: u128 = 0;
    let mut i: usize = 0;
    assert(bytes@.take(0) =~= Seq::<u8>::empty());
    assert(vstd::utf8::encode_utf8(Seq::<char>::empty()) =~= Seq::<u8>::empty());
    while i < count
        invariant
            bytes@ == vstd::utf8::encode_utf8(text@),
            i <= count,
            count == bytes@.len(),
            size == text::byte_len(form_bytes(bytes@.take(i as int))),
            size <= 3 * i,
        decreases count - i,
    {
        let b: u8 = bytes[i];
        proof {
            assert(bytes@.take(i + 1).drop_last() =~= bytes@.take(i as int));
            lemma_form_byte(b);
            text::lemma_encode_concat(form_bytes(bytes@.take(i as int)), form_byte(b));
        }
        if (0x30 <= b && b <= 0x39) || (0x41 <= b && b <= 0x5a) || (0x61 <= b && b <= 0x7a) || b
            == 0x2a || b == 0x2d || b == 0x2e || b == 0x5f || b == 0x20 {
            size = size + 1;
        } else {
            size = size + 3;
        }
        i = i + 1;
    }
    assert(bytes@.take(i as int) =~= bytes@);
    size
}

/// Whether a query made of `pairs` takes at most `room` bytes.
fn query_fits(pairs: &Vec<(String, String)>, room: u32) -> (r: bool)
    ensures
        r == (query_size(pair_texts(pairs@)) <= room),
{
    let ghost all = pair_texts(pairs@);
    let mut size: u128 = 0;
    let mut i: usize = 0;
    assert(all.take(0) =~= Seq::empty());
    while i < pairs.len()
        invariant
            i <= pairs@.len(),
            all == pair_texts(pairs@),
            size == query_size(all.take(i as int)),
            size <= room,
        decreases pairs.len() - i,
    {
        proof {
            lemma_query_step(all, i as int);
            lemma_query_grows(all, i + 1);
        }
        if i > 0 {
            size = size + 1;
        }
        size = size + encoded_size(pairs[i].0.as_str());
        size = size + 1 + encoded_size(pairs[i].1.as_str());
        if size > room as u128 {
            return false;
        }
        i = i + 1;
    }
    assert(all.take(i as int) =~= all);
    true
}

/// Taking spaces away makes no text longer.
proof fn lemma_without_end_spaces(text: Seq<char>)
    ensures
        text::byte_len(without_end_spaces(text)) <= text::byte_len(text),
        without_end_spaces(text).len() == 0 || without_end_spaces(text).last() != ' ',
    decreases text.len(),
{
    if text.len() > 0 && text.last() == ' ' {
        lemma_without_end_spaces(text.drop_last());
        assert(text =~= text.drop_last() + seq![text.last()]);
        text::lemma_encode_concat(text.drop_last(), seq![text.last()]);
    }
}

/// The address `url` with the flag that asks for a Mihomo configuration: pairs under that key
/// leave the query, and the flag comes last. Everything else of the address stays.
pub fn make_meta_url(url: Url) -> (r: Url)
    requires
        meta_url_fits(url_parts(url)),
    ensures
        url_parts(r) == meta_parts(url_parts(url)),
        form_pairs(query_text(url_parts(r))) == flagged(form_pairs(query_text(url_parts(url)))),
{
    let ghost parts = url_parts(url);
    let mut url = url;
    let pairs = meta_pairs(&query_pairs(&url));
    let ghost all = pair_texts(pairs@);
    clear_query(&mut url);
    let mut i: usize = 0;
    proof {
        assert(all.take(0) =~= Seq::empty());
        lemma_without_end_spaces(parts.base);
    }
    while i < pairs.len()
        invariant
            i <= pairs@.len(),
            all == pair_texts(pairs@),
            all == flagged(form_pairs(query_text(parts))),
            meta_url_fits(parts),
            text::byte_len(cleared_base(parts)) <= text::byte_len(parts.base),
            url_parts(url) == (UrlParts {
                query: with_pairs(None, all.take(i as int)),
                ..cleared(parts)
            }),
            form_pairs(query_text(url_parts(url))) == all.take(i as int),
        decreases pairs.len() - i,
    {
        proof {
            lemma_query_step(all, i as int);
            lemma_query_grows(all, i + 1);
            assert(all.take(i + 1) =~= all.take(i as int).push(all[i as int]));
        }
        append_pair(&mut url, pairs[i].0.as_str(), pairs[i].1.as_str());
        i = i + 1;
    }
    assert(all.take(i as int) =~= all);
    url
}

/// The number of bytes that the text of an address takes up to its query, up to its fragment
/// and in all.
proof fn lemma_text_sizes(parts: UrlParts)
    ensures
        text::byte_len(text_before_fragment(parts)) - text::byte_len(parts.base)
            == match parts.query {
            Some(query) => 1 + text::byte_len(query),
            None => 0,
        },
        text::byte_len(url_text(parts)) - text::byte_len(text_before_fragment(parts))
            == match parts.fragment {
            Some(fragment) => 1 + text::byte_len(fragment),
            None => 0,
        },
{
    text::lemma_one_byte('?');
    text::lemma_one_byte('#');
    if let Some(query) = parts.query {
        text::lemma_encode_concat(seq!['?'], query);
        text::lemma_encode_concat(parts.base, seq!['?'] + query);
    }
    if let Some(fragment) = parts.fragment {
        text::lemma_encode_concat(seq!['#'], fragment);
        text::lemma_encode_concat(text_before_fragment(parts), seq!['#'] + fragment);
    }
}

/// The address `url` with the flag that asks for a Mihomo configuration, or nothing where its
/// query cannot be read or the new one would have no room in it.
pub fn checked_meta_url(url: Url) -> (r: Option<Url>)
    ensures
        r is Some <==> meta_url_fits(url_parts(url)),
        r is None ==> text::byte_len(url_text(url_parts(url))) >= u32::MAX || text::byte_len(
            url_text(meta_parts(url_parts(url))),
        ) >= u32::MAX,
        r matches Some(meta) ==> url_parts(meta) == meta_parts(url_parts(url)),
        r matches Some(meta) ==> form_pairs(query_text(url_parts(meta))) == flagged(
            form_pairs(query_text(url_parts(url))),
        ),
{
    proof {
        lemma_text_sizes(url_parts(url));
        lemma_text_sizes(meta_parts(url_parts(url)));
    }
    let (before_query, before_fragment) = text_heads(&url);
    let base: usize = text::size(before_query);
    let head: usize = text::size(before_fragment);
    let has_fragment = head < text::size(as_str(&url));
    if base >= u32::MAX as usize || (has_fragment && head >= u32::MAX as usize) {
        return None;
    }
    if has_fragment {
        let pairs = meta_pairs(&query_pairs(&url));
        let room: u32 = u32::MAX - base as u32;
        if room < 2 || !query_fits(&pairs, room - 2) {
            return None;
        }
    }
    Some(make_meta_url(url))
}

/// Of the pairs of an address that asks for a Mihomo configuration exactly the last one has the
/// flag as its key, and its value is that of Mihomo. The others are those that came with
/// another key.
pub proof fn flag_comes_once_and_last(pairs: Seq<(Seq<char>, Seq<char>)>)
    ensures
        flagged(pairs).last() == ("flag"@, "meta"@),
        forall|i: int|
            0 <= i < flagged(pairs).len() - 1 ==> (#[trigger] flagged(pairs)[i]).0 != "flag"@,
        forall|pair: (Seq<char>, Seq<char>)|
            pair.0 != "flag"@ ==> (#[trigger] flagged(pairs).contains(pair) <==> pairs.contains(
                pair,
            )),
{
    let wanted = |pair: (Seq<char>, Seq<char>)| pair.0 != "flag"@;
    let kept = pairs.filter(wanted);
    assert forall|i: int| 0 <= i < flagged(pairs).len() - 1 implies (
    #[trigger] flagged(pairs)[i]).0 != "flag"@ by {
        pairs.lemma_filter_pred(wanted, i);
        assert(flagged(pairs)[i] == kept[i]);
    }
    assert forall|pair: (Seq<char>, Seq<char>)| pair.0 != "flag"@ implies (
    #[trigger] flagged(pairs).contains(pair) <==> pairs.contains(pair)) by {
        if pairs.contains(pair) {
            let i = pairs.index_of(pair);
            pairs.lemma_filter_contains(wanted, i);
            let j = kept.index_of(pair);
            assert(flagged(pairs)[j] == pair);
        }
        if flagged(pairs).contains(pair) {
            let i = flagged(pairs).index_of(pair);
            assert(kept[i] == pair);
            pairs.lemma_filter_contains_rev(wanted, pair);
        }
    }
}

/// A filter that turns nothing away keeps everything.
proof fn lemma_filter_keeps(
    pairs: Seq<(Seq<char>, Seq<char>)>,
    wanted: spec_fn((Seq<char>, Seq<char>)) -> bool,
)
    requires
        forall|i: int| 0 <= i < pairs.len() ==> wanted(#[trigger] pairs[i]),
    ensures
        pairs.filter(wanted) == pairs,
    decreases pairs.len(),
{
    reveal(Seq::filter);
    if pairs.len() > 0 {
        lemma_filter_keeps(pairs.drop_last(), wanted);
        assert(wanted(pairs[pairs.len() - 1]));
        assert(pairs.drop_last().push(pairs.last()) =~= pairs);
    }
}

/// Setting the flag on pairs that have it already changes nothing.
pub proof fn flagging_twice_is_flagging_once(pairs: Seq<(Seq<char>, Seq<char>)>)
    ensures
        flagged(flagged(pairs)) == flagged(pairs),
{
    let wanted = |pair: (Seq<char>, Seq<char>)| pair.0 != "flag"@;
    let kept = pairs.filter(wanted);
    assert forall|i: int| 0 <= i < kept.len() implies wanted(#[trigger] kept[i]) by {
        pairs.lemma_filter_pred(wanted, i);
    }
    lemma_filter_keeps(kept, wanted);
    let all = flagged(pairs);
    assert(all.drop_last() =~= kept);
    assert(all.filter(wanted) == kept) by {
        reveal(Seq::filter);
    }
}

/// Asking for a Mihomo configuration twice gives the address that asking once gives, where the
/// pairs that were written into the query are read back from it. They are: see
/// [`make_meta_url`].
pub proof fn meta_url_of_meta_url(parts: UrlParts)
    requires
        form_pairs(query_text(meta_parts(parts))) == flagged(form_pairs(query_text(parts))),
    ensures
        meta_parts(meta_parts(parts)) == meta_parts(parts),
{
    flagging_twice_is_flagging_once(form_pairs(query_text(parts)));
    lemma_without_end_spaces(parts.base);
}

/// An address gets its flag wherever its text, and the text with the flag, take fewer bytes
/// than can be counted in 32 bits.
pub proof fn short_address_gets_its_flag(parts: UrlParts)
    requires
        text::byte_len(url_text(parts)) < u32::MAX,
        text::byte_len(url_text(meta_parts(parts))) < u32::MAX,
    ensures
        meta_url_fits(parts),
{
    lemma_text_sizes(parts);
    lemma_text_sizes(meta_parts(parts));
}

/// The flag goes behind pairs one by one: a pair with another key stays in its place before the
/// flag, and one with the key of the flag goes.
pub proof fn flagging_goes_pair_by_pair(
    pairs: Seq<(Seq<char>, Seq<char>)>,
    pair: (Seq<char>, Seq<char>),
)
    ensures
        flagged(Seq::empty()) == seq![("flag"@, "meta"@)],
        flagged(pairs.push(pair)) == if pair.0 == "flag"@ {
            flagged(pairs)
        } else {
            flagged(pairs).drop_last().push(pair).push(("flag"@, "meta"@))
        },
{
    let wanted = |pair: (Seq<char>, Seq<char>)| pair.0 != "flag"@;
    reveal(Seq::filter);
    let none = Seq::<(Seq<char>, Seq<char>)>::empty();
    assert(none.filter(wanted) =~= none);
    assert(flagged(none) =~= seq![("flag"@, "meta"@)]);
    let more = pairs.push(pair);
    assert(more.drop_last() =~= pairs);
    assert(more.last() == pair);
    assert(flagged(pairs).drop_last() =~= pairs.filter(wanted));
}

/// The flag changes nothing of an address but its query: what stands before it and what stands
/// behind it stay. Only spaces may go, at the end of what stands before it, where nothing stands
/// behind it and no slash stands behind the first colon.
pub proof fn rest_of_the_address_stays(parts: UrlParts)
    ensures
        meta_parts(parts).fragment == parts.fragment,
        meta_parts(parts).base.is_prefix_of(parts.base),
        forall|i: int|
            meta_parts(parts).base.len() <= i < parts.base.len() ==> #[trigger] parts.base[i]
                == ' ',
        parts.fragment is Some ==> meta_parts(parts).base == parts.base,
        parts.base.len() > 0 && parts.base.last() != ' ' ==> meta_parts(parts).base == parts.base,
        forall|c: int|
            0 <= c < parts.base.len() - 1 && #[trigger] parts.base[c] == ':' && parts.base[c + 1]
                == '/' && !parts.base.take(c).contains(':') ==> meta_parts(parts).base
                == parts.base,
{
    lemma_spaces_go(parts.base);
    let base = parts.base;
    assert(base =~= base.subrange(0, base.len() as int));
    assert forall|c: int|
        0 <= c < base.len() - 1 && #[trigger] base[c] == ':' && base[c + 1] == '/' && !base.take(
            c,
        ).contains(':') implies meta_parts(parts).base == base by {
        assert forall|i: int| 0 <= i < c implies base[i] != ':' by {
            assert(base.take(c)[i] == base[i]);
            assert(base.take(c).contains(base.take(c)[i]));
        }
        crate::sections::lemma_colon_at(base, 0, c);
    }
}

/// What is left without the spaces at the end.
proof fn lemma_spaces_go(text: Seq<char>)
    ensures
        without_end_spaces(text).is_prefix_of(text),
        forall|i: int|
            without_end_spaces(text).len() <= i < text.len() ==> #[trigger] text[i] == ' ',
        text.len() > 0 && text.last() != ' ' ==> without_end_spaces(text) == text,
    decreases text.len(),
{
    if text.len() > 0 && text.last() == ' ' {
        let rest = text.drop_last();
        lemma_spaces_go(rest);
        let left = without_end_spaces(rest);
        assert(left =~= text.subrange(0, left.len() as int)) by {
            assert(rest.subrange(0, left.len() as int) =~= text.subrange(0, left.len() as int));
        }
        assert forall|i: int| left.len() <= i < text.len() implies #[trigger] text[i] == ' ' by {
            if i < rest.len() {
                assert(text[i] == rest[i]);
            }
        }
    } else {
        assert(text =~= text.subrange(0, text.len() as int));
    }
}

/// Letters are written as they are.
proof fn lemma_letters_stay(text: Seq<char>)
    requires
        forall|i: int| 0 <= i < text.len() ==> 'a' <= #[trigger] text[i] <= 'z',
    ensures
        form_encoded(text) == text,
{
    let bytes = vstd::utf8::encode_utf8(text);
    assert(vstd::utf8::is_ascii_chars(text));
    vstd::utf8::is_ascii_chars_encode_utf8(text);
    assert forall|i: int| 0 <= i < bytes.len() implies 0x61 <= #[trigger] bytes[i] <= 0x7a by {
        assert(text[i] as u8 == bytes[i]);
    }
    lemma_letter_bytes_stay(bytes);
    assert forall|i: int| 0 <= i < text.len() implies form_bytes(bytes)[i]
        == #[trigger] text[i] by {
        assert(text[i] as u8 == bytes[i]);
    }
    assert(form_bytes(bytes) =~= text);
}

/// The bytes of letters are written as they are.
proof fn lemma_letter_bytes_stay(bytes: Seq<u8>)
    requires
        forall|i: int| 0 <= i < bytes.len() ==> 0x61 <= #[trigger] bytes[i] <= 0x7a,
    ensures
        form_bytes(bytes) == Seq::new(bytes.len(), |i: int| bytes[i] as char),
    decreases bytes.len(),
{
    let all = Seq::new(bytes.len(), |i: int| bytes[i] as char);
    if bytes.len() > 0 {
        let rest = bytes.drop_last();
        assert forall|i: int| 0 <= i < rest.len() implies 0x61 <= #[trigger] rest[i] <= 0x7a by {
            assert(rest[i] == bytes[i]);
        }
        lemma_letter_bytes_stay(rest);
        assert(0x61 <= bytes[bytes.len() - 1] <= 0x7a);
        assert(form_bytes(bytes) =~= all);
    } else {
        assert(form_bytes(bytes) =~= all);
    }
}

/// The flag is written at the end of the query, behind an ampersand if anything is before it.
pub proof fn flag_is_written_last(parts: UrlParts)
    ensures
        ({
            let query = query_text(meta_parts(parts));
            &&& meta_parts(parts).query == Some(query)
            &&& "flag=meta"@.is_suffix_of(query)
            &&& query.len() > "flag=meta"@.len() ==> query[query.len() - "flag=meta"@.len() - 1]
                == '&'
        }),
{
    lemma_flag_query(parts);
}

/// The query with the flag: that of the other pairs, and the flag behind it.
proof fn lemma_flag_query(parts: UrlParts)
    ensures
        ({
            let others = flagged(form_pairs(query_text(parts))).drop_last();
            let query = query_text(meta_parts(parts));
            &&& meta_parts(parts).query == Some(query)
            &&& others.len() == 0 ==> query == "flag=meta"@
            &&& others.len() > 0 ==> query == with_pairs(None, others)->0.push('&') + "flag=meta"@
            &&& "flag=meta"@.len() == 9
        }),
{
    let all = flagged(form_pairs(query_text(parts)));
    let others = all.drop_last();
    let n = others.len() as int;
    reveal_strlit("flag");
    reveal_strlit("meta");
    reveal_strlit("flag=meta");
    lemma_letters_stay("flag"@);
    lemma_letters_stay("meta"@);
    assert(all.last() == ("flag"@, "meta"@));
    let none = Seq::<char>::empty();
    assert("flag"@ + seq!['='] + "meta"@ =~= "flag=meta"@);
    assert(all.take(n) =~= others);
    assert(all.take(n + 1) =~= all);
    lemma_query_step(all, n);
    if n > 0 {
        let before = with_pairs(None, others)->0;
        text::lemma_byte_len_covers(before);
        assert(with_pairs(None, others) == Some(before));
        if before.len() == 0 {
            assert(vstd::utf8::encode_utf8(before) =~= Seq::<u8>::empty());
        }
        assert(before.push('&') + "flag"@ + seq!['='] + "meta"@ =~= before.push('&')
            + "flag=meta"@);
    } else {
        assert(others =~= Seq::empty());
        assert(none + "flag"@ + seq!['='] + "meta"@ =~= "flag=meta"@);
    }
}

/// An address with no pair in its query but flags comes to have the flag for its whole query.
pub proof fn flag_can_be_the_whole_query(parts: UrlParts)
    requires
        forall|i: int|
            0 <= i < form_pairs(query_text(parts)).len() ==> (#[trigger] form_pairs(
                query_text(parts),
            )[i]).0 == "flag"@,
        parts.base.len() > 0 && parts.base.last() != ' ',
    ensures
        url_text(meta_parts(parts)) == parts.base + "?flag=meta"@ + match parts.fragment {
            Some(fragment) => seq!['#'] + fragment,
            None => Seq::empty(),
        },
{
    let pairs = form_pairs(query_text(parts));
    flag_comes_once_and_last(pairs);
    rest_of_the_address_stays(parts);
    lemma_flag_query(parts);
    let others = flagged(pairs).drop_last();
    if others.len() > 0 {
        let wanted = |pair: (Seq<char>, Seq<char>)| pair.0 != "flag"@;
        pairs.lemma_filter_pred(wanted, 0);
        let pair = others[0];
        assert(flagged(pairs)[0] == pair);
        assert(pair.0 != "flag"@);
        assert(flagged(pairs).contains(pair));
        assert(pairs.contains(pair));
        let i = pairs.index_of(pair);
        assert(pairs[i].0 == "flag"@);
    }
    reveal_strlit("?flag=meta");
    reveal_strlit("flag=meta");
    assert(seq!['?'] + "flag=meta"@ =~= "?flag=meta"@);
    let none = Seq::<char>::empty();
    assert(parts.base + "?flag=meta"@ + none =~= parts.base + "?flag=meta"@);
}

/// The query with the flag is written pair by pair: each pair goes behind what was written
/// before it.
pub proof fn query_is_written_pair_by_pair(
    parts: UrlParts,
    pairs: Seq<(Seq<char>, Seq<char>)>,
    pair: (Seq<char>, Seq<char>),
)
    ensures
        meta_parts(parts).query == with_pairs(None, flagged(form_pairs(query_text(parts)))),
        with_pairs(None, Seq::empty()) is None,
        with_pairs(None, pairs.push(pair)) == Some(
            with_pair(with_pairs(None, pairs), pair.0, pair.1),
        ),
{
    assert(pairs.push(pair).drop_last() =~= pairs);
}

} // verus!

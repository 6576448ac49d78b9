//! Names as bytes: where a stretch of bytes occurs, what a query with stars
//! asks of a name, and the coarse filter that spares most comparisons.

use vstd::prelude::*;
use vstd::slice::slice_subrange;
use vstd::utf8::{decode_utf8, encode_utf8, valid_utf8};

verus! {

/// The byte that separates the fragments of a query.
pub const STAR: u8 = 0x2A;

/// The lower-case form that `str::to_lowercase` gives to a text.
pub uninterp spec fn lowercase(text: Seq<char>) -> Seq<char>;

/// The text that `String::from_utf16` reads from 16-bit units, if they are
/// well-formed UTF-16.
pub uninterp spec fn utf16_text(units: Seq<u16>) -> Option<Seq<char>>;

/// Calls `str::to_lowercase`. The contract names the result and claims
/// nothing else of it.
#[verifier::external_body]
pub(crate) fn to_lowercase(text: &str) -> (lower: String)
    ensures
        lower@ == lowercase(text@),
{
    text.to_lowercase()
}

/// Calls `String::from_utf16`. The contract names the text that was read;
/// `None` stands for the error that std returns on units that are not
/// UTF-16.
#[verifier::external_body]
pub(crate) fn text_from_utf16(units: &Vec<u16>) -> (text: Option<String>)
    ensures
        match text {
            Some(s) => utf16_text(units@) == Some(s@),
            None => utf16_text(units@) is None,
        },
{
    String::from_utf16(units).ok()
}

/// Calls `String::from_utf8`. The contract claims that the bytes are taken
/// exactly when they are valid UTF-8, and that the text is then the one they
/// encode; `None` stands for the error that std returns otherwise.
#[verifier::external_body]
pub(crate) fn text_from_utf8(bytes: Vec<u8>) -> (text: Option<String>)
    ensures
        text is Some <==> valid_utf8(bytes@),
        text matches Some(s) ==> s@ == decode_utf8(bytes@),
{
    String::from_utf8(bytes).ok()
}

/// Calls `String::push`: the text gets one more character at its end.
#[verifier::external_body]
pub(crate) fn push_char(text: &mut String, c: char)
    ensures
        final(text)@ == old(text)@.push(c),
{
    text.push(c)
}

/// Whether `needle` stands in `hay` at the position `at`.
pub open spec fn occurs_at(hay: Seq<u8>, needle: Seq<u8>, at: int) -> bool {
    &&& 0 <= at
    &&& at + needle.len() <= hay.len()
    &&& hay.subrange(at, at + needle.len()) == needle
}

/// Whether `needle` stands somewhere in `hay`.
pub open spec fn occurs(hay: Seq<u8>, needle: Seq<u8>) -> bool {
    exists|at: int| occurs_at(hay, needle, at)
}

/// Whether the bytes of `query` from `from` up to `to` are one of its
/// fragments: a longest stretch without a star.
pub open spec fn is_fragment(query: Seq<u8>, from: int, to: int) -> bool {
    &&& 0 <= from <= to <= query.len()
    &&& from == 0 || query[from - 1] == STAR
    &&& to == query.len() || query[to] == STAR
    &&& forall|k: int| from <= k < to ==> query[k] != STAR
}

/// Whether every fragment of `query` stands somewhere in `name`.
pub open spec fn wildcard_match(name: Seq<u8>, query: Seq<u8>) -> bool {
    forall|from: int, to: int| #[trigger]
        is_fragment(query, from, to) ==> occurs(name, query.subrange(from, to))
}

/// The bit that stands for the byte `b` in a filter: one for each letter from
/// `a` to `z`, one for all digits, one for all bytes beyond ASCII, one for
/// all other bytes; none for the star.
pub open spec fn class_bit(b: u8) -> u32 {
    if 0x61 <= b <= 0x7A {
        1u32 << ((b - 0x61) as u32)
    } else if 0x30 <= b <= 0x39 {
        0x400_0000
    } else if b == STAR {
        0
    } else if b >= 0x80 {
        0x800_0000
    } else {
        0x1000_0000
    }
}

/// The filter of a text: the bits of all its bytes.
pub open spec fn filter_of(text: Seq<u8>) -> u32
    decreases text.len(),
{
    if text.len() == 0 {
        0
    } else {
        filter_of(text.drop_last()) | class_bit(text.last())
    }
}

/// Whether a name with the filter `name_filter` can match a query with the
/// filter `query_filter`: it has every bit that the query has.
pub open spec fn passes(name_filter: u32, query_filter: u32) -> bool {
    name_filter & query_filter == query_filter
}

/// The filter of a text has the bit of each of its bytes.
pub proof fn lemma_filter_has_each(text: Seq<u8>, k: int)
    requires
        0 <= k < text.len(),
    ensures
        passes(filter_of(text), class_bit(text[k])),
    decreases text.len(),
{
    let front = filter_of(text.drop_last());
    let last = class_bit(text.last());
    if k == text.len() - 1 {
        assert((front | last) & last == last) by (bit_vector);
    } else {
        lemma_filter_has_each(text.drop_last(), k);
        let bit = class_bit(text[k]);
        assert(front & bit == bit ==> (front | last) & bit == bit) by (bit_vector);
    }
}

/// A filter that has the bit of each byte of a text has the text's filter.
pub proof fn lemma_filter_is_least(text: Seq<u8>, filter: u32)
    requires
        forall|k: int| 0 <= k < text.len() ==> passes(filter, class_bit(#[trigger] text[k])),
    ensures
        passes(filter, filter_of(text)),
    decreases text.len(),
{
    if text.len() == 0 {
        assert(filter & 0 == 0) by (bit_vector);
    } else {
        let front = filter_of(text.drop_last());
        let last = class_bit(text.last());
        lemma_filter_is_least(text.drop_last(), filter);
        assert(filter & front == front && filter & last == last ==> filter & (front | last) == (
        front | last)) by (bit_vector);
    }
}

/// Where the fragment begins that holds the byte at `k`.
pub open spec fn fragment_start(query: Seq<u8>, k: int) -> int
    decreases k,
{
    if k <= 0 || query[k - 1] == STAR {
        k
    } else {
        fragment_start(query, k - 1)
    }
}

/// Where the fragment ends that holds the byte at `k`.
pub open spec fn fragment_end(query: Seq<u8>, k: int) -> int
    decreases query.len() - k,
{
    if k >= query.len() || query[k] == STAR {
        k
    } else {
        fragment_end(query, k + 1)
    }
}

/// Every byte of a query that is no star lies in one of its fragments.
pub proof fn lemma_fragment_around(query: Seq<u8>, k: int)
    requires
        0 <= k < query.len(),
        query[k] != STAR,
    ensures
        is_fragment(query, fragment_start(query, k), fragment_end(query, k)),
        fragment_start(query, k) <= k < fragment_end(query, k),
{
    lemma_fragment_start(query, k);
    lemma_fragment_end(query, k);
}

proof fn lemma_fragment_start(query: Seq<u8>, k: int)
    requires
        0 <= k <= query.len(),
    ensures
        0 <= fragment_start(query, k) <= k,
        fragment_start(query, k) == 0 || query[fragment_start(query, k) - 1] == STAR,
        forall|j: int| fragment_start(query, k) <= j < k ==> query[j] != STAR,
    decreases k,
{
    if k > 0 && query[k - 1] != STAR {
        lemma_fragment_start(query, k - 1);
    }
}

proof fn lemma_fragment_end(query: Seq<u8>, k: int)
    requires
        0 <= k <= query.len(),
    ensures
        k <= fragment_end(query, k) <= query.len(),
        fragment_end(query, k) == query.len() || query[fragment_end(query, k)] == STAR,
        forall|j: int| k <= j < fragment_end(query, k) ==> query[j] != STAR,
    decreases query.len() - k,
{
    if k < query.len() && query[k] != STAR {
        lemma_fragment_end(query, k + 1);
    }
}

/// The filter never turns away a name that matches: a name in which every
/// fragment of the query occurs has every bit of the query's filter.
pub proof fn lemma_filter_sound(name: Seq<u8>, query: Seq<u8>)
    requires
        wildcard_match(name, query),
    ensures
        passes(filter_of(name), filter_of(query)),
{
    let filter = filter_of(name);
    assert forall|k: int| 0 <= k < query.len() implies passes(
        filter,
        class_bit(#[trigger] query[k]),
    ) by {
        if query[k] == STAR {
            assert(filter & 0 == 0) by (bit_vector);
        } else {
            lemma_fragment_around(query, k);
            let from = fragment_start(query, k);
            let to = fragment_end(query, k);
            let fragment = query.subrange(from, to);
            let at = choose|at: int| occurs_at(name, fragment, at);
            assert(name.subrange(at, at + fragment.len())[k - from] == fragment[k - from]);
            lemma_filter_has_each(name, at + k - from);
        }
    }
    lemma_filter_is_least(query, filter);
}

/// Whether `needle` stands in `hay` at `at`.
fn matches_at(hay: &[u8], needle: &[u8], at: usize) -> (found: bool)
    requires
        at + needle.len() <= hay.len(),
    ensures
        found == occurs_at(hay@, needle@, at as int),
{
    let n = needle.len();
    let mut k: usize = 0;
    while k < n
        invariant
            k <= n,
            n == needle.len(),
            at + n <= hay.len(),
            forall|j: int| 0 <= j < k ==> hay@[at + j] == needle@[j],
        decreases n - k,
    {
        if hay[at + k] != needle[k] {
            return false;
        }
        k = k + 1;
    }
    assert(hay@.subrange(at as int, at + n) =~= needle@);
    true
}

/// Whether `needle` stands somewhere in `hay`.
pub fn contains_bytes(hay: &[u8], needle: &[u8]) -> (found: bool)
    ensures
        found == occurs(hay@, needle@),
{
    if needle.len() > hay.len() {
        return false;
    }
    let last = hay.len() - needle.len();
    let mut at: usize = 0;
    loop
        invariant
            at <= last,
            last + needle.len() == hay.len(),
            forall|p: int| 0 <= p < at ==> !occurs_at(hay@, needle@, p),
        decreases last - at,
    {
        if matches_at(hay, needle, at) {
            return true;
        }
        if at == last {
            return false;
        }
        at = at + 1;
    }
}

/// The filter of `text`.
pub fn make_filter(text: &[u8]) -> (filter: u32)
    ensures
        filter == filter_of(text@),
{
    let n = text.len();
    let mut filter: u32 = 0;
    let mut k: usize = 0;
    while k < n
        invariant
            k <= n,
            n == text@.len(),
            filter == filter_of(text@.take(k as int)),
        decreases n - k,
    {
        let b = text[k];
        let bit: u32 = if 0x61 <= b && b <= 0x7A {
            1u32 << ((b - 0x61) as u32)
        } else if 0x30 <= b && b <= 0x39 {
            0x400_0000
        } else if b == STAR {
            0
        } else if b >= 0x80 {
            0x800_0000
        } else {
            0x1000_0000
        };
        filter = filter | bit;
        assert(text@.take(k + 1).drop_last() =~= text@.take(k as int));
        k = k + 1;
    }
    assert(text@.take(n as int) =~= text@);
    filter
}

/// Whether every fragment of `query` stands somewhere in `name`.
pub fn match_bytes(name: &[u8], query: &[u8]) -> (matched: bool)
    ensures
        matched == wildcard_match(name@, query@),
{
    let n = query.len();
    let mut start: usize = 0;
    let mut pos: usize = 0;
    while pos < n
        invariant
            start <= pos <= n,
            n == query.len(),
            start == 0 || query@[start - 1] == STAR,
            forall|k: int| start <= k < pos ==> query@[k] != STAR,
            forall|from: int, to: int| #[trigger]
                is_fragment(query@, from, to) && to < start ==> occurs(
                    name@,
                    query@.subrange(from, to),
                ),
        decreases n - pos,
    {
        if query[pos] == STAR {
            let fragment = slice_subrange(query, start, pos);
            assert(is_fragment(query@, start as int, pos as int));
            if !contains_bytes(name, fragment) {
                return false;
            }
            assert forall|from: int, to: int| #[trigger]
                is_fragment(query@, from, to) && to <= pos implies occurs(
                name@,
                query@.subrange(from, to),
            ) by {
                lemma_fragment_unique(query@, from, to, start as int, pos as int);
            }
            start = pos + 1;
        }
        pos = pos + 1;
    }
    let fragment = slice_subrange(query, start, n);
    assert(is_fragment(query@, start as int, n as int));
    if !contains_bytes(name, fragment) {
        return false;
    }
    assert forall|from: int, to: int| #[trigger] is_fragment(query@, from, to) implies occurs(
        name@,
        query@.subrange(from, to),
    ) by {
        lemma_fragment_unique(query@, from, to, start as int, n as int);
    }
    true
}

/// Of a fragment that ends at or before the end of a stretch without a star
/// which begins behind a star: it is that stretch, or it ends before the
/// stretch begins.
proof fn lemma_fragment_unique(query: Seq<u8>, from: int, to: int, start: int, end: int)
    requires
        is_fragment(query, from, to),
        0 <= start <= end <= query.len(),
        start == 0 || query[start - 1] == STAR,
        forall|k: int| start <= k < end ==> query[k] != STAR,
        to <= end,
    ensures
        to == end ==> from == start,
        to < end ==> to < start,
{
}

/// Where in a name the text behind its last dot begins; 0 where the name
/// has no dot.
pub open spec fn extension_start(name: Seq<char>) -> int
    decreases name.len(),
{
    if name.len() == 0 {
        0
    } else if name.last() == '.' {
        name.len() as int
    } else {
        extension_start(name.drop_last())
    }
}

/// The extension of a name: the text behind its last dot, and the empty
/// text where it has no dot.
pub open spec fn extension_of(name: Seq<char>) -> Seq<char> {
    if extension_start(name) == 0 {
        Seq::empty()
    } else {
        name.skip(extension_start(name))
    }
}

/// The text behind the last dot of a name begins behind a dot, holds no
/// dot, and runs to the end of the name.
pub proof fn lemma_extension_start(name: Seq<char>)
    ensures
        0 <= extension_start(name) <= name.len(),
        extension_start(name) > 0 ==> name[extension_start(name) - 1] == '.',
        forall|k: int| extension_start(name) <= k < name.len() ==> name[k] != '.',
    decreases name.len(),
{
    if name.len() > 0 && name.last() != '.' {
        let front = name.drop_last();
        lemma_extension_start(front);
        assert forall|k: int| extension_start(name) <= k < name.len() implies name[k] != '.' by {
            if k < front.len() {
                assert(front[k] == name[k]);
            }
        }
    }
}

/// The extension of `name`.
pub fn extension(name: &str) -> (ext: String)
    ensures
        ext@ == extension_of(name@),
{
    let mut ext = String::new();
    let mut dotted = false;
    for c in it: name.chars()
        invariant
            it.seq() == name@,
            dotted == (extension_start(name@.take(it.index() as int)) > 0),
            ext@ == extension_of(name@.take(it.index() as int)),
    {
        let ghost before = name@.take(it.index() as int);
        let ghost after = name@.take(it.index() + 1);
        proof {
            lemma_extension_start(before);
            assert(after.drop_last() =~= before);
            assert(after.last() == c);
        }
        if c == '.' {
            ext = String::new();
            dotted = true;
            assert(after.skip(after.len() as int) =~= Seq::empty());
        } else if dotted {
            push_char(&mut ext, c);
            assert(after.skip(extension_start(before)) =~= before.skip(extension_start(before)).push(
                c,
            ));
        }
    }
    assert(name@.take(name@.len() as int) =~= name@);
    ext
}

/// Whether every fragment of the lower-case query occurs in the lower-case
/// form of `contain`.
pub fn match_str(contain: &str, query_lower: &str) -> (matched: bool)
    ensures
        matched == wildcard_match(encode_utf8(lowercase(contain@)), encode_utf8(query_lower@)),
{
    let lower_contain = to_lowercase(contain);
    match_bytes(lower_contain.as_str().as_bytes(), query_lower.as_bytes())
}

} // verus!

//! Letter case, and text out of bytes.
use vstd::prelude::*;
use vstd::utf8::{decode_utf8, valid_utf8};
use crate::text::{byte_len, char_index, from_chars, law_char_index, to_chars};

verus! {

/// Whether `s` holds ASCII characters only.
pub open spec fn is_ascii(s: Seq<char>) -> bool {
    forall|i: int| 0 <= i < s.len() ==> #[trigger] s[i] <= '\u{7f}'
}

/// `c`, with the letters `A` to `Z` replaced by `a` to `z`.
pub open spec fn ascii_lower(c: char) -> char {
    if 'A' <= c <= 'Z' {
        (c as u32 + 32) as char
    } else {
        c
    }
}

/// `s`, with the letters `A` to `Z` replaced by `a` to `z`.
pub open spec fn ascii_lowercase(s: Seq<char>) -> Seq<char> {
    s.map_values(|c: char| ascii_lower(c))
}

/// What `str::to_lowercase` of std returns for a text that is not all ASCII: the lower case that
/// Unicode gives to it, which may have another length.
pub uninterp spec fn unicode_lowercase(s: Seq<char>) -> Seq<char>;

/// The lower case of `s`.
pub open spec fn lowercase(s: Seq<char>) -> Seq<char> {
    if is_ascii(s) {
        ascii_lowercase(s)
    } else {
        unicode_lowercase(s)
    }
}

/// What `String::from_utf8_lossy` of std returns for bytes that are not UTF-8: the text that is
/// left when each faulty run of bytes is replaced by U+FFFD.
pub uninterp spec fn repaired_text(bytes: Seq<u8>) -> Seq<char>;

/// The text that `bytes` stand for.
pub open spec fn text_of(bytes: Seq<u8>) -> Seq<char> {
    if valid_utf8(bytes) {
        decode_utf8(bytes)
    } else {
        repaired_text(bytes)
    }
}

/// `str::to_lowercase` of std. Claimed of it: on ASCII text it replaces the letters `A` to `Z` and
/// nothing else; on any other text the result depends on the text alone.
#[verifier::external_body]
pub(crate) fn std_lowercase(s: &str) -> (r: String)
    ensures
        r@ == (if is_ascii(s@) {
            ascii_lowercase(s@)
        } else {
            unicode_lowercase(s@)
        }),
{
    s.to_lowercase()
}

/// `String::from_utf8_lossy` of std. Claimed of it: valid UTF-8 is decoded; for any other bytes
/// the result depends on the bytes alone.
#[verifier::external_body]
pub(crate) fn std_from_utf8_lossy(bytes: &Vec<u8>) -> (r: String)
    ensures
        r@ == (if valid_utf8(bytes@) {
            decode_utf8(bytes@)
        } else {
            repaired_text(bytes@)
        }),
{
    String::from_utf8_lossy(bytes).into_owned()
}

/// The text that `bytes` stand for.
pub fn decode_text(bytes: &Vec<u8>) -> (r: String)
    ensures
        r@ == text_of(bytes@),
{
    std_from_utf8_lossy(bytes)
}

/// The lower case of `v`.
pub(crate) fn lower(v: &Vec<char>) -> (r: Vec<char>)
    ensures
        r@ == lowercase(v@),
{
    let s = from_chars(v);
    to_chars(std_lowercase(s.as_str()).as_str())
}

/// Whether `p` stands in `s` at position `i`, the case of ASCII letters in `s` aside.
pub open spec fn occurs_any_case(s: Seq<char>, p: Seq<char>, i: int) -> bool {
    0 <= i && i + p.len() <= s.len() && ascii_lowercase(s.subrange(i, i + p.len())) == p
}

/// The first position from `from` on at which `p` stands in `s`, the case of ASCII letters in `s`
/// aside.
pub open spec fn find_any_case(s: Seq<char>, p: Seq<char>, from: int) -> Option<int>
    decreases s.len() + 1 - from,
{
    if from < 0 || from + p.len() > s.len() {
        None
    } else if occurs_any_case(s, p, from) {
        Some(from)
    } else {
        find_any_case(s, p, from + 1)
    }
}

pub proof fn lemma_find_any_case_bounds(s: Seq<char>, p: Seq<char>, from: int)
    requires
        0 <= from,
    ensures
        find_any_case(s, p, from) matches Some(i) ==> from <= i && i + p.len() <= s.len(),
    decreases s.len() + 1 - from,
{
    if from + p.len() > s.len() {
    } else if occurs_any_case(s, p, from) {
    } else {
        lemma_find_any_case_bounds(s, p, from + 1);
    }
}

/// The lower case of an ASCII text is one, has its length, and is its own lower case.
pub proof fn law_ascii_lowercase(s: Seq<char>)
    requires
        is_ascii(s),
    ensures
        is_ascii(lowercase(s)),
        lowercase(s).len() == s.len(),
        lowercase(lowercase(s)) == lowercase(s),
{
    let low = lowercase(s);
    assert forall|i: int| 0 <= i < low.len() implies #[trigger] low[i] <= '\u{7f}' && ascii_lower(low[i])
        == low[i] by {
        lemma_ascii_lower(s[i]);
        assert(low[i] == ascii_lower(s[i]));
    }
    assert(lowercase(low) =~= low);
}

proof fn lemma_ascii_lower(c: char)
    ensures
        c <= '\u{7f}' ==> ascii_lower(c) <= '\u{7f}',
        ascii_lower(ascii_lower(c)) == ascii_lower(c),
{
}

/// An ASCII text takes one byte per character.
pub proof fn law_ascii_byte_len(s: Seq<char>)
    requires
        is_ascii(s),
    ensures
        byte_len(s) == s.len(),
    decreases s.len(),
{
    if s.len() > 0 {
        let rest = s.drop_last();
        assert forall|i: int| 0 <= i < rest.len() implies #[trigger] rest[i] <= '\u{7f}' by {
            assert(rest[i] == s[i]);
        }
        law_ascii_byte_len(rest);
        assert(s.last() == s[s.len() - 1]);
    }
}

/// Any part of an ASCII text is one.
pub proof fn lemma_ascii_part(s: Seq<char>, from: int, to: int)
    requires
        is_ascii(s),
        0 <= from <= to <= s.len(),
    ensures
        is_ascii(s.subrange(from, to)),
{
    let part = s.subrange(from, to);
    assert forall|i: int| 0 <= i < part.len() implies #[trigger] part[i] <= '\u{7f}' by {
        assert(part[i] == s[from + i]);
    }
}

/// In an ASCII text the character at byte `i` is the one at position `i`.
pub proof fn law_ascii_char_index(s: Seq<char>, i: int)
    requires
        is_ascii(s),
        0 <= i <= s.len(),
    ensures
        char_index(s, i) == Some(i),
{
    assert(s.take(i) =~= s.subrange(0, i));
    lemma_ascii_part(s, 0, i);
    law_ascii_byte_len(s.take(i));
    law_char_index(s, i, i);
}

/// `c`, with the letters `A` to `Z` replaced by `a` to `z`.
fn to_ascii_lower(c: char) -> (r: char)
    ensures
        r == ascii_lower(c),
{
    if 'A' <= c && c <= 'Z' {
        (c as u8 + 32) as char
    } else {
        c
    }
}

/// Whether `p` stands in `v` at position `at`, the case of ASCII letters in `v` aside.
pub(crate) fn stands_any_case(v: &Vec<char>, p: &Vec<char>, at: usize) -> (r: bool)
    ensures
        r == occurs_any_case(v@, p@, at as int),
{
    if at > v.len() || v.len() - at < p.len() {
        return false;
    }
    let ghost here = ascii_lowercase(v@.subrange(at as int, at + p.len()));
    let mut i: usize = 0;
    while i < p.len()
        invariant
            i <= p.len(),
            at + p.len() <= v.len(),
            here == ascii_lowercase(v@.subrange(at as int, at + p.len())),
            forall|k: int| 0 <= k < i ==> here[k] == p@[k],
        decreases p.len() - i,
    {
        assert(here[i as int] == ascii_lower(v@[at + i]));
        if to_ascii_lower(v[at + i]) != p[i] {
            return false;
        }
        i = i + 1;
    }
    assert(here =~= p@);
    true
}

/// The first position from `from` on at which `p` stands in `v`, the case of ASCII letters in `v`
/// aside.
pub(crate) fn search_any_case(v: &Vec<char>, p: &Vec<char>, from: usize) -> (r: Option<usize>)
    ensures
        (r matches Some(i) ==> find_any_case(v@, p@, from as int) == Some(i as int) && from <= i && i
            + p.len() <= v.len()),
        (r is None ==> find_any_case(v@, p@, from as int) is None),
{
    let mut i: usize = from;
    while i <= v.len() && p.len() <= v.len() - i
        invariant
            from <= i,
            find_any_case(v@, p@, from as int) == find_any_case(v@, p@, i as int),
        decreases v.len() + 1 - i,
    {
        if stands_any_case(v, p, i) {
            return Some(i);
        }
        if i == v.len() {
            assert(find_any_case(v@, p@, i + 1) is None);
            return None;
        }
        i = i + 1;
    }
    None
}

/// The lower case of an ASCII text differs from it only in the letters: each of `A` to `Z` is
/// replaced by the letter of `a` to `z` in the same place of the alphabet.
pub proof fn law_lowercase_of_letters(s: Seq<char>, i: int)
    requires
        forall|k: int| 0 <= k < s.len() ==> #[trigger] s[k] <= '\u{7f}',
        0 <= i < s.len(),
    ensures
        lowercase(s).len() == s.len(),
        'A' <= s[i] <= 'Z' ==> lowercase(s)[i] as u32 - 'a' as u32 == s[i] as u32 - 'A' as u32,
        !('A' <= s[i] <= 'Z') ==> lowercase(s)[i] == s[i],
{
    assert(is_ascii(s));
    assert(lowercase(s)[i] == ascii_lower(s[i]));
}

/// The lower case of a text outside ASCII is the one of Unicode.
pub proof fn law_lowercase_beyond_ascii(s: Seq<char>, i: int)
    requires
        0 <= i < s.len(),
        s[i] > '\u{7f}',
    ensures
        lowercase(s) == unicode_lowercase(s),
{
    assert(!is_ascii(s));
}

/// What is found, letter case aside, is the first place at which every character is the one that
/// was looked for or its capital letter.
pub proof fn law_find_any_case_is_first(s: Seq<char>, p: Seq<char>, from: int)
    requires
        0 <= from,
        forall|k: int| 0 <= k < p.len() ==> !('A' <= #[trigger] p[k] <= 'Z'),
    ensures
        match find_any_case(s, p, from) {
            Some(i) => from <= i && i + p.len() <= s.len() && (forall|k: int|
                0 <= k < p.len() ==> same_letter(#[trigger] s[i + k], p[k])) && (forall|j: int|
                from <= j < i ==> !#[trigger] occurs_any_case(s, p, j)),
            None => forall|j: int| from <= j ==> !#[trigger] occurs_any_case(s, p, j),
        },
        forall|j: int|
            0 <= j && j + p.len() <= s.len() && (forall|k: int|
                0 <= k < p.len() ==> same_letter(#[trigger] s[j + k], p[k]))
                ==> #[trigger] occurs_any_case(s, p, j),
    decreases s.len() + 1 - from,
{
    assert forall|j: int|
        0 <= j && j + p.len() <= s.len() && (forall|k: int|
            0 <= k < p.len() ==> same_letter(#[trigger] s[j + k], p[k])) implies
        #[trigger] occurs_any_case(s, p, j) by {
        let here = ascii_lowercase(s.subrange(j, j + p.len()));
        assert forall|k: int| 0 <= k < p.len() implies here[k] == p[k] by {
            assert(same_letter(s[j + k], p[k]));
            assert(!('A' <= p[k] <= 'Z'));
            assert(s.subrange(j, j + p.len())[k] == s[j + k]);
            assert(here[k] == ascii_lower(s[j + k]));
            if s[j + k] != p[k] {
                vstd::utf8::char_u32_cast(p[k], (s[j + k] as u32 + 32) as u32);
            }
        }
        assert(here =~= p);
    }
    if from + p.len() <= s.len() {
        if occurs_any_case(s, p, from) {
            assert forall|k: int| 0 <= k < p.len() implies same_letter(#[trigger] s[from + k], p[k]) by {
                assert(ascii_lowercase(s.subrange(from, from + p.len()))[k] == ascii_lower(s[from + k]));
            }
        } else {
            law_find_any_case_is_first(s, p, from + 1);
        }
    }
}

/// Whether `c` is `low`, or its capital letter.
pub open spec fn same_letter(c: char, low: char) -> bool {
    c == low || ('A' <= c <= 'Z' && c as u32 + 32 == low as u32)
}

/// A text that was written in UTF-8 is read as it was written.
pub proof fn law_utf8_is_read_back(s: Seq<char>)
    ensures
        text_of(vstd::utf8::encode_utf8(s)) == s,
{
    vstd::utf8::encode_utf8_valid_utf8(s);
    vstd::utf8::encode_utf8_decode_utf8(s);
}

} // verus!

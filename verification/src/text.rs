//! Text as sequences of characters: the operations on strings that the other modules are
//! specified with, each beside its executable counterpart.
use vstd::prelude::*;

verus! {

// ---------------------------------------------------------------------------------------------
// What the operations mean
// ---------------------------------------------------------------------------------------------

/// The characters with Unicode's `White_Space` property.
pub open spec fn is_white(c: char) -> bool {
    ||| '\u{9}' <= c <= '\u{d}'
    ||| c == ' '
    ||| c == '\u{85}'
    ||| c == '\u{a0}'
    ||| c == '\u{1680}'
    ||| '\u{2000}' <= c <= '\u{200a}'
    ||| c == '\u{2028}'
    ||| c == '\u{2029}'
    ||| c == '\u{202f}'
    ||| c == '\u{205f}'
    ||| c == '\u{3000}'
}

/// `s` without the white space at its start.
pub open spec fn trim_start(s: Seq<char>) -> Seq<char>
    decreases s.len(),
{
    if s.len() > 0 && is_white(s[0]) {
        trim_start(s.skip(1))
    } else {
        s
    }
}

/// `s` without the white space at its end.
pub open spec fn trim_end(s: Seq<char>) -> Seq<char>
    decreases s.len(),
{
    if s.len() > 0 && is_white(s.last()) {
        trim_end(s.drop_last())
    } else {
        s
    }
}

/// `s` without the white space at either end.
pub open spec fn trim(s: Seq<char>) -> Seq<char> {
    trim_end(trim_start(s))
}

/// Whether `s` holds nothing but white space.
pub open spec fn is_blank(s: Seq<char>) -> bool {
    forall|i: int| 0 <= i < s.len() ==> is_white(#[trigger] s[i])
}

/// Whether `s` begins with `p`.
pub open spec fn starts_with(s: Seq<char>, p: Seq<char>) -> bool {
    p.len() <= s.len() && s.take(p.len() as int) == p
}

/// Whether `s` ends with `p`.
pub open spec fn ends_with(s: Seq<char>, p: Seq<char>) -> bool {
    p.len() <= s.len() && s.skip(s.len() - p.len()) == p
}

/// Whether `p` stands in `s` at position `i`.
pub open spec fn occurs_at(s: Seq<char>, p: Seq<char>, i: int) -> bool {
    0 <= i && i + p.len() <= s.len() && s.subrange(i, i + p.len()) == p
}

/// The first position from `from` on at which `p` stands in `s`.
pub open spec fn find_from(s: Seq<char>, p: Seq<char>, from: int) -> Option<int>
    decreases s.len() + 1 - from,
{
    if from < 0 || from + p.len() > s.len() {
        None
    } else if occurs_at(s, p, from) {
        Some(from)
    } else {
        find_from(s, p, from + 1)
    }
}

/// The first position at which `p` stands in `s`.
pub open spec fn find(s: Seq<char>, p: Seq<char>) -> Option<int> {
    find_from(s, p, 0)
}

/// Whether `p` stands somewhere in `s`.
pub open spec fn contains(s: Seq<char>, p: Seq<char>) -> bool {
    find(s, p) is Some
}

/// The first position from `from` on that holds `c`.
pub open spec fn find_char_from(s: Seq<char>, c: char, from: int) -> Option<int>
    decreases s.len() - from,
{
    if from < 0 || from >= s.len() {
        None
    } else if s[from] == c {
        Some(from)
    } else {
        find_char_from(s, c, from + 1)
    }
}

/// The first position that holds `c`.
pub open spec fn find_char(s: Seq<char>, c: char) -> Option<int> {
    find_char_from(s, c, 0)
}

/// The part of `s` before the first `c`; all of it where there is none.
pub open spec fn before(s: Seq<char>, c: char) -> Seq<char> {
    match find_char(s, c) {
        Some(i) => s.take(i),
        None => s,
    }
}

/// The parts of `s` between the occurrences of `sep`, from `from` on. There is always at least one.
pub open spec fn split_from(s: Seq<char>, sep: char, from: int) -> Seq<Seq<char>>
    decreases s.len() - from,
{
    if 0 <= from < s.len() {
        match find_char_from(s, sep, from) {
            Some(i) => {
                if from <= i < s.len() {
                    seq![s.subrange(from, i)] + split_from(s, sep, i + 1)
                } else {
                    seq![s.skip(from)]
                }
            },
            None => seq![s.skip(from)],
        }
    } else {
        seq![Seq::empty()]
    }
}

/// The parts of `s` between the occurrences of `sep`. There is always at least one.
pub open spec fn split(s: Seq<char>, sep: char) -> Seq<Seq<char>> {
    split_from(s, sep, 0)
}

/// `s` with every occurrence of `p` taken out, found from the left and not overlapping.
pub open spec fn remove_all(s: Seq<char>, p: Seq<char>) -> Seq<char>
    decreases s.len(),
{
    if s.len() == 0 {
        s
    } else if p.len() > 0 && starts_with(s, p) {
        remove_all(s.skip(p.len() as int), p)
    } else {
        seq![s[0]] + remove_all(s.skip(1), p)
    }
}

/// `s` without the repetitions of `p` that it begins with.
pub open spec fn strip_prefixes(s: Seq<char>, p: Seq<char>) -> Seq<char>
    decreases s.len(),
{
    if p.len() > 0 && starts_with(s, p) {
        strip_prefixes(s.skip(p.len() as int), p)
    } else {
        s
    }
}

/// `s` without the repetitions of `c` that it ends with.
pub open spec fn strip_end(s: Seq<char>, c: char) -> Seq<char>
    decreases s.len(),
{
    if s.len() > 0 && s.last() == c {
        strip_end(s.drop_last(), c)
    } else {
        s
    }
}

/// The contents of a list of character vectors.
pub open spec fn texts(v: Seq<Vec<char>>) -> Seq<Seq<char>> {
    v.map_values(|t: Vec<char>| t@)
}

/// The number of characters before the first white space of `s`.
pub open spec fn word_len(s: Seq<char>) -> int
    decreases s.len(),
{
    if s.len() == 0 || is_white(s[0]) {
        0
    } else {
        1 + word_len(s.skip(1))
    }
}

/// The first of the words of `s`, which are separated by white space; empty where there is none.
pub open spec fn first_word(s: Seq<char>) -> Seq<char> {
    trim_start(s).take(word_len(trim_start(s)))
}

/// The words of `s`, separated by white space.
pub open spec fn words(s: Seq<char>) -> Seq<Seq<char>>
    decreases s.len(),
{
    let t = trim_start(s);
    if t.len() == 0 {
        Seq::empty()
    } else {
        let rest = t.skip(word_len(t));
        proof {
            lemma_trim_start_len(s);
            lemma_word_len(t);
        }
        if rest.len() < s.len() {
            seq![first_word(s)] + words(rest)
        } else {
            Seq::empty()
        }
    }
}

/// The number of bytes that UTF-8 takes for `c`.
pub open spec fn utf8_width(c: char) -> int {
    if c <= '\u{7f}' {
        1
    } else if c <= '\u{7ff}' {
        2
    } else if c <= '\u{ffff}' {
        3
    } else {
        4
    }
}

/// The number of bytes that UTF-8 takes for `s`.
pub open spec fn byte_len(s: Seq<char>) -> int
    decreases s.len(),
{
    if s.len() == 0 {
        0
    } else {
        byte_len(s.drop_last()) + utf8_width(s.last())
    }
}

/// The position of the character of `s` that begins at byte `offset` of its UTF-8 form; the
/// length of `s` for the offset where that form ends. `None` where no character begins there.
pub open spec fn char_index(s: Seq<char>, offset: int) -> Option<int>
    decreases s.len(),
{
    if offset == 0 {
        Some(0)
    } else if s.len() == 0 || offset < utf8_width(s[0]) {
        None
    } else {
        match char_index(s.skip(1), offset - utf8_width(s[0])) {
            Some(i) => Some(i + 1),
            None => None,
        }
    }
}

// ---------------------------------------------------------------------------------------------
// Facts about them
// ---------------------------------------------------------------------------------------------

pub proof fn lemma_trim_start_len(s: Seq<char>)
    ensures
        trim_start(s).len() <= s.len(),
        trim_start(s) == s.skip(s.len() - trim_start(s).len()),
    decreases s.len(),
{
    if s.len() > 0 && is_white(s[0]) {
        lemma_trim_start_len(s.skip(1));
        let n = trim_start(s).len();
        assert(s.skip(1).skip(s.skip(1).len() - n) =~= s.skip(s.len() - n));
    } else {
        assert(s.skip(0) =~= s);
    }
}

pub proof fn lemma_trim_start_head(s: Seq<char>)
    ensures
        trim_start(s).len() > 0 ==> !is_white(trim_start(s)[0]),
    decreases s.len(),
{
    if s.len() > 0 && is_white(s[0]) {
        lemma_trim_start_head(s.skip(1));
    }
}

pub proof fn lemma_trim_end_len(s: Seq<char>)
    ensures
        trim_end(s).len() <= s.len(),
        trim_end(s) == s.take(trim_end(s).len() as int),
    decreases s.len(),
{
    if s.len() > 0 && is_white(s.last()) {
        lemma_trim_end_len(s.drop_last());
        let n = trim_end(s).len() as int;
        assert(s.drop_last().take(n) =~= s.take(n));
    } else {
        assert(s.take(s.len() as int) =~= s);
    }
}

pub proof fn lemma_word_len(s: Seq<char>)
    ensures
        0 <= word_len(s) <= s.len(),
        s.len() > 0 && !is_white(s[0]) ==> word_len(s) > 0,
    decreases s.len(),
{
    if s.len() == 0 || is_white(s[0]) {
    } else {
        lemma_word_len(s.skip(1));
    }
}

pub proof fn lemma_find_from_bounds(s: Seq<char>, p: Seq<char>, from: int)
    requires
        0 <= from,
    ensures
        find_from(s, p, from) matches Some(i) ==> from <= i && occurs_at(s, p, i),
    decreases s.len() + 1 - from,
{
    if from + p.len() > s.len() {
    } else if occurs_at(s, p, from) {
    } else {
        lemma_find_from_bounds(s, p, from + 1);
    }
}

pub proof fn lemma_find_char_from_bounds(s: Seq<char>, c: char, from: int)
    requires
        0 <= from,
    ensures
        find_char_from(s, c, from) matches Some(i) ==> from <= i < s.len() && s[i] == c && (forall|k: int|
            from <= k < i ==> s[k] != c),
        find_char_from(s, c, from) is None ==> (forall|k: int| from <= k < s.len() ==> s[k] != c),
    decreases s.len() - from,
{
    if from < s.len() && s[from] != c {
        lemma_find_char_from_bounds(s, c, from + 1);
    }
}

pub proof fn lemma_byte_len_nonneg(s: Seq<char>)
    ensures
        s.len() <= byte_len(s) <= 4 * s.len(),
    decreases s.len(),
{
    if s.len() > 0 {
        lemma_byte_len_nonneg(s.drop_last());
    }
}

pub proof fn lemma_char_index_bounds(s: Seq<char>, offset: int)
    ensures
        char_index(s, offset) matches Some(i) ==> 0 <= i <= s.len(),
    decreases s.len(),
{
    if offset != 0 && s.len() > 0 && offset >= utf8_width(s[0]) {
        lemma_char_index_bounds(s.skip(1), offset - utf8_width(s[0]));
    }
}

/// The number of bytes that UTF-8 takes for a text is the length of the UTF-8 form.
pub proof fn law_byte_len_is_utf8_len(s: Seq<char>)
    ensures
        byte_len(s) == vstd::utf8::encode_utf8(s).len(),
    decreases s.len(),
{
    if s.len() > 0 {
        law_byte_len_is_utf8_len(s.skip(1));
        lemma_byte_len_concat(seq![s[0]], s.skip(1));
        assert(seq![s[0]] + s.skip(1) =~= s);
        assert(s.drop_first() =~= s.skip(1));
        assert(seq![s[0]].drop_last() =~= Seq::<char>::empty());
        reveal_with_fuel(byte_len, 2);
        assert(byte_len(seq![s[0]]) == utf8_width(s[0]));
        lemma_scalar_width(s[0]);
    }
}

proof fn lemma_scalar_width(c: char)
    ensures
        vstd::utf8::encode_scalar(c as u32).len() == utf8_width(c),
{
}

/// The bytes of two texts in a row are those of the one and those of the other.
pub proof fn lemma_byte_len_concat(s: Seq<char>, t: Seq<char>)
    ensures
        byte_len(s + t) == byte_len(s) + byte_len(t),
    decreases t.len(),
{
    if t.len() == 0 {
        assert(s + t =~= s);
    } else {
        lemma_byte_len_concat(s, t.drop_last());
        assert((s + t).drop_last() =~= s + t.drop_last());
        assert((s + t).last() == t.last());
    }
}

/// A character begins at byte `offset` exactly where the characters before it take `offset` bytes.
pub proof fn law_char_index(s: Seq<char>, offset: int, i: int)
    requires
        0 <= i <= s.len(),
    ensures
        char_index(s, offset) == Some(i) <==> byte_len(s.take(i)) == offset,
    decreases s.len(),
{
    lemma_byte_len_nonneg(s.take(i));
    if i == 0 {
        assert(s.take(0) =~= Seq::<char>::empty());
        if offset != 0 && s.len() > 0 && offset >= utf8_width(s[0]) {
            lemma_char_index_bounds(s.skip(1), offset - utf8_width(s[0]));
        }
    } else {
        let w = utf8_width(s[0]);
        let head = seq![s[0]];
        let tail = s.skip(1).take(i - 1);
        assert(head + tail =~= s.take(i));
        lemma_byte_len_concat(head, tail);
        assert(head.drop_last() =~= Seq::<char>::empty());
        reveal_with_fuel(byte_len, 2);
        assert(byte_len(head) == w);
        lemma_byte_len_nonneg(tail);
        law_char_index(s.skip(1), offset - w, i - 1);
    }
}

/// What is found is the first place, and where nothing is found there is none.
pub proof fn law_find_is_first(s: Seq<char>, p: Seq<char>, from: int)
    requires
        0 <= from,
    ensures
        match find_from(s, p, from) {
            Some(i) => from <= i && occurs_at(s, p, i) && (forall|k: int|
                from <= k < i ==> !occurs_at(s, p, k)),
            None => forall|k: int| from <= k ==> !occurs_at(s, p, k),
        },
    decreases s.len() + 1 - from,
{
    if from + p.len() <= s.len() && !occurs_at(s, p, from) {
        law_find_is_first(s, p, from + 1);
    }
}

/// Trimming leaves nothing exactly where there is nothing but white space.
pub proof fn law_trim_blank(s: Seq<char>)
    ensures
        trim(s).len() == 0 <==> is_blank(s),
    decreases s.len(),
{
    if s.len() > 0 {
        if is_white(s[0]) {
            law_trim_blank(s.skip(1));
            assert(trim(s) == trim(s.skip(1)));
            if is_blank(s.skip(1)) {
                assert forall|i: int| 0 <= i < s.len() implies is_white(#[trigger] s[i]) by {
                    if i > 0 {
                        assert(s[i] == s.skip(1)[i - 1]);
                    }
                }
            }
            if is_blank(s) {
                assert forall|i: int| 0 <= i < s.skip(1).len() implies is_white(
                    #[trigger] s.skip(1)[i],
                ) by {
                    assert(s.skip(1)[i] == s[i + 1]);
                }
            }
        } else {
            lemma_trim_end_keeps(s, 0);
        }
    }
}

/// A character that is not white space keeps those before it from being trimmed.
pub proof fn lemma_trim_end_keeps(s: Seq<char>, i: int)
    requires
        0 <= i < s.len(),
        !is_white(s[i]),
    ensures
        trim_end(s).len() > i,
    decreases s.len(),
{
    if is_white(s.last()) {
        lemma_trim_end_keeps(s.drop_last(), i);
    }
}

/// The parts between separators hold none.
pub proof fn law_parts_hold_no_separator(s: Seq<char>, sep: char, from: int)
    requires
        0 <= from,
    ensures
        split_from(s, sep, from).len() > 0,
        forall|k: int|
            0 <= k < split_from(s, sep, from).len() ==> !(#[trigger] split_from(s, sep, from)[k]).contains(
                sep,
            ),
    decreases s.len() - from,
{
    lemma_find_char_from_bounds(s, sep, from);
    if from < s.len() {
        match find_char_from(s, sep, from) {
            Some(i) => {
                law_parts_hold_no_separator(s, sep, i + 1);
                let head = s.subrange(from, i);
                let rest = split_from(s, sep, i + 1);
                assert(split_from(s, sep, from) =~= seq![head] + rest);
                assert forall|k: int| 0 <= k < split_from(s, sep, from).len() implies !(
                #[trigger] split_from(s, sep, from)[k]).contains(sep) by {
                    if k > 0 {
                        assert(split_from(s, sep, from)[k] == rest[k - 1]);
                    }
                }
            },
            None => {},
        }
    }
}

/// Two texts with a separator between them have the parts of the first, and then the parts of the
/// second.
pub proof fn law_parts_in_a_row(a: Seq<char>, sep: char, b: Seq<char>)
    ensures
        split(a + seq![sep] + b, sep) == split(a, sep) + split(b, sep),
{
    lemma_parts_in_a_row(a, sep, b, 0);
}

proof fn lemma_parts_in_a_row(a: Seq<char>, sep: char, b: Seq<char>, from: int)
    requires
        0 <= from <= a.len(),
    ensures
        split_from(a + seq![sep] + b, sep, from) == split_from(a, sep, from) + split(b, sep),
    decreases a.len() - from,
{
    let s = a + seq![sep] + b;
    let n = a.len() as int;
    lemma_find_char_from_bounds(s, sep, from);
    lemma_find_char_from_bounds(a, sep, from);
    assert(s[n] == sep);
    assert(forall|k: int| 0 <= k < n ==> s[k] == a[k]);
    let i = find_char_from(s, sep, from)->0;
    assert(find_char_from(s, sep, from) == Some(i) && i <= n);
    assert(s.subrange(from, i) =~= a.subrange(from, i));
    if i < n {
        assert(find_char_from(a, sep, from) == Some(i));
        lemma_parts_in_a_row(a, sep, b, i + 1);
        assert(split_from(s, sep, from) =~= split_from(a, sep, from) + split(b, sep));
    } else {
        assert(find_char_from(a, sep, from) is None);
        assert(s =~= (a + seq![sep]) + b);
        lemma_parts_shift(a + seq![sep], b, sep, 0);
        assert(a.subrange(from, n) =~= a.skip(from));
        assert(from == n ==> a.subrange(from, n) =~= Seq::empty());
        assert(split_from(a, sep, from) =~= seq![a.subrange(from, n)]);
        assert(split_from(s, sep, from) =~= split_from(a, sep, from) + split(b, sep));
    }
}

/// A character in front of a text that is no separator belongs to its first part.
pub proof fn lemma_split_front(c: char, s: Seq<char>, sep: char)
    requires
        c != sep,
    ensures
        split(s, sep).len() > 0,
        split(seq![c] + s, sep) == seq![seq![c] + split(s, sep)[0]] + split(s, sep).skip(1),
{
    let front = seq![c];
    let whole = front + s;
    let parts = split(s, sep);
    lemma_find_char_from_bounds(whole, sep, 0);
    lemma_find_char_from_bounds(s, sep, 0);
    assert(whole[0] == c);
    assert(forall|k: int| 0 <= k < s.len() ==> whole[1 + k] == s[k]);
    match find_char_from(s, sep, 0) {
        Some(i) => {
            assert(whole[1 + i] == sep);
            let j = find_char_from(whole, sep, 0)->0;
            assert(s[j - 1] == whole[j]);
            assert(j == 1 + i);
            lemma_parts_shift(front, s, sep, i + 1);
            assert(whole.subrange(0, j) =~= front + s.subrange(0, i));
            assert(parts.skip(1) =~= split_from(s, sep, i + 1));
        },
        None => {
            if find_char_from(whole, sep, 0) is Some {
                let j = find_char_from(whole, sep, 0)->0;
                assert(s[j - 1] == whole[j]);
            }
            assert(whole.skip(0) =~= front + parts[0]);
            assert(parts.skip(1) =~= Seq::empty());
        },
    }
    assert(split(whole, sep) =~= seq![front + parts[0]] + parts.skip(1));
}

/// What stands in front does not change the parts that follow.
proof fn lemma_parts_shift(front: Seq<char>, s: Seq<char>, sep: char, from: int)
    requires
        0 <= from,
    ensures
        split_from(front + s, sep, front.len() + from) == split_from(s, sep, from),
    decreases s.len() - from,
{
    let whole = front + s;
    let n = front.len() as int;
    lemma_find_char_from_bounds(whole, sep, n + from);
    lemma_find_char_from_bounds(s, sep, from);
    assert(forall|k: int| 0 <= k < s.len() ==> whole[n + k] == s[k]);
    if from < s.len() {
        match find_char_from(s, sep, from) {
            Some(i) => {
                assert(whole[n + i] == sep);
                let j = find_char_from(whole, sep, n + from)->0;
                assert(s[j - n] == whole[j]);
                assert(j == n + i);
                lemma_parts_shift(front, s, sep, i + 1);
                assert(whole.subrange(n + from, n + i) =~= s.subrange(from, i));
            },
            None => {
                if find_char_from(whole, sep, n + from) is Some {
                    let j = find_char_from(whole, sep, n + from)->0;
                    assert(s[j - n] == whole[j]);
                }
                assert(whole.skip(n + from) =~= s.skip(from));
            },
        }
    }
}

// ---------------------------------------------------------------------------------------------
// Computing them
// ---------------------------------------------------------------------------------------------

/// `String::push` of std: the character is appended at the end.
pub assume_specification[ String::push ](s: &mut String, c: char)
    ensures
        final(s)@ == old(s)@.push(c),
;

/// The characters of `s`, one per cell.
pub(crate) fn to_chars(s: &str) -> (r: Vec<char>)
    ensures
        r@ == s@,
{
    let mut r: Vec<char> = Vec::new();
    for c in it: s.chars()
        invariant
            it.seq() == s@,
            r@ == s@.take(it.index() as int),
    {
        r.push(c);
    }
    r
}

/// The string made of the characters of `v`.
pub(crate) fn from_chars(v: &Vec<char>) -> (r: String)
    ensures
        r@ == v@,
{
    let mut r = String::new();
    let mut i: usize = 0;
    while i < v.len()
        invariant
            i <= v.len(),
            r@ == v@.take(i as int),
        decreases v.len() - i,
    {
        r.push(v[i]);
        i = i + 1;
        assert(v@.take(i as int) =~= v@.take(i - 1).push(v@[i - 1]));
    }
    assert(v@.take(v.len() as int) =~= v@);
    r
}

/// The characters of `v` from `from` to before `to`.
pub(crate) fn slice_of(v: &Vec<char>, from: usize, to: usize) -> (r: Vec<char>)
    requires
        from <= to <= v.len(),
    ensures
        r@ == v@.subrange(from as int, to as int),
{
    let mut r: Vec<char> = Vec::new();
    let mut i: usize = from;
    while i < to
        invariant
            from <= i <= to <= v.len(),
            r@ == v@.subrange(from as int, i as int),
        decreases to - i,
    {
        r.push(v[i]);
        i = i + 1;
        assert(v@.subrange(from as int, i as int) =~= v@.subrange(from as int, i - 1).push(v@[i - 1]));
    }
    r
}

/// Whether `c` is white space.
pub fn is_whitespace(c: char) -> (r: bool)
    ensures
        r == is_white(c),
{
    ('\u{9}' <= c && c <= '\u{d}') || c == ' ' || c == '\u{85}' || c == '\u{a0}' || c == '\u{1680}'
        || ('\u{2000}' <= c && c <= '\u{200a}') || c == '\u{2028}' || c == '\u{2029}'
        || c == '\u{202f}' || c == '\u{205f}' || c == '\u{3000}'
}

/// Whether `v` and `w` hold the same characters.
pub(crate) fn same_chars(v: &Vec<char>, w: &Vec<char>) -> (r: bool)
    ensures
        r == (v@ == w@),
{
    if v.len() != w.len() {
        return false;
    }
    let mut i: usize = 0;
    while i < v.len()
        invariant
            i <= v.len(),
            v.len() == w.len(),
            forall|k: int| 0 <= k < i ==> v@[k] == w@[k],
        decreases v.len() - i,
    {
        if v[i] != w[i] {
            return false;
        }
        i = i + 1;
    }
    assert(v@ =~= w@);
    true
}

/// Whether `v` holds the characters of `s`.
pub(crate) fn is_text(v: &Vec<char>, s: &str) -> (r: bool)
    ensures
        r == (v@ == s@),
{
    same_chars(v, &to_chars(s))
}

/// Whether `p` stands in `v` at position `at`.
pub(crate) fn stands_at(v: &Vec<char>, p: &Vec<char>, at: usize) -> (r: bool)
    ensures
        r == occurs_at(v@, p@, at as int),
{
    if at > v.len() || v.len() - at < p.len() {
        return false;
    }
    let mut i: usize = 0;
    while i < p.len()
        invariant
            i <= p.len(),
            at + p.len() <= v.len(),
            forall|k: int| 0 <= k < i ==> v@[at + k] == p@[k],
        decreases p.len() - i,
    {
        if v[at + i] != p[i] {
            assert(v@.subrange(at as int, at + p.len())[i as int] != p@[i as int]);
            return false;
        }
        i = i + 1;
    }
    assert(v@.subrange(at as int, at + p.len()) =~= p@);
    true
}

/// Whether `v` begins with `p`.
pub(crate) fn has_prefix(v: &Vec<char>, p: &str) -> (r: bool)
    ensures
        r == starts_with(v@, p@),
{
    let p = to_chars(p);
    assert(p@.len() <= v@.len() ==> v@.subrange(0, 0int + p@.len()) =~= v@.take(p@.len() as int));
    stands_at(v, &p, 0)
}

/// Whether `v` ends with `p`.
pub(crate) fn has_suffix(v: &Vec<char>, p: &str) -> (r: bool)
    ensures
        r == ends_with(v@, p@),
{
    let p = to_chars(p);
    if v.len() < p.len() {
        return false;
    }
    assert(v@.subrange(v@.len() - p@.len(), v@.len() - p@.len() + p@.len()) =~= v@.skip(
        v@.len() - p@.len(),
    ));
    stands_at(v, &p, v.len() - p.len())
}

/// The first position from `from` on at which `p` stands in `v`.
pub(crate) fn find_text(v: &Vec<char>, p: &Vec<char>, from: usize) -> (r: Option<usize>)
    ensures
        (r matches Some(i) ==> find_from(v@, p@, from as int) == Some(i as int)),
        (r is None ==> find_from(v@, p@, from as int) is None),
{
    let mut i: usize = from;
    while i <= v.len() && p.len() <= v.len() - i
        invariant
            from <= i,
            find_from(v@, p@, from as int) == find_from(v@, p@, i as int),
        decreases v.len() + 1 - i,
    {
        if stands_at(v, p, i) {
            return Some(i);
        }
        if i == v.len() {
            assert(find_from(v@, p@, i + 1) is None);
            return None;
        }
        i = i + 1;
    }
    None
}

/// The first position from `from` on that holds `c`.
pub(crate) fn find_mark(v: &Vec<char>, c: char, from: usize) -> (r: Option<usize>)
    ensures
        (r matches Some(i) ==> find_char_from(v@, c, from as int) == Some(i as int)),
        (r is None ==> find_char_from(v@, c, from as int) is None),
        (r matches Some(i) ==> from <= i < v.len() && v@[i as int] == c),
{
    let mut i: usize = from;
    while i < v.len()
        invariant
            from <= i,
            find_char_from(v@, c, from as int) == find_char_from(v@, c, i as int),
        decreases v.len() - i,
    {
        if v[i] == c {
            return Some(i);
        }
        i = i + 1;
    }
    None
}

/// `v` without the white space at its start.
pub(crate) fn trimmed_start(v: &Vec<char>) -> (r: Vec<char>)
    ensures
        r@ == trim_start(v@),
{
    let mut i: usize = 0;
    assert(v@.skip(0) =~= v@);
    while i < v.len() && is_whitespace(v[i])
        invariant
            i <= v.len(),
            trim_start(v@) == trim_start(v@.skip(i as int)),
        decreases v.len() - i,
    {
        assert(v@.skip(i as int)[0] == v@[i as int]);
        assert(v@.skip(i as int).skip(1) =~= v@.skip(i + 1));
        i = i + 1;
    }
    assert(i < v.len() ==> v@.skip(i as int)[0] == v@[i as int]);
    assert(v@.subrange(i as int, v@.len() as int) =~= v@.skip(i as int));
    slice_of(v, i, v.len())
}

/// `v` without the white space at its end.
pub(crate) fn trimmed_end(v: &Vec<char>) -> (r: Vec<char>)
    ensures
        r@ == trim_end(v@),
{
    let mut n: usize = v.len();
    assert(v@.take(v@.len() as int) =~= v@);
    while n > 0 && is_whitespace(v[n - 1])
        invariant
            n <= v.len(),
            trim_end(v@) == trim_end(v@.take(n as int)),
        decreases n,
    {
        assert(v@.take(n as int).last() == v@[n - 1]);
        assert(v@.take(n as int).drop_last() =~= v@.take(n - 1));
        n = n - 1;
    }
    assert(n > 0 ==> v@.take(n as int).last() == v@[n - 1]);
    assert(v@.subrange(0, n as int) =~= v@.take(n as int));
    slice_of(v, 0, n)
}

/// `v` without the white space at either end.
pub(crate) fn trimmed(v: &Vec<char>) -> (r: Vec<char>)
    ensures
        r@ == trim(v@),
{
    trimmed_end(&trimmed_start(v))
}

/// The parts of `v` between the occurrences of `sep`.
pub(crate) fn split_at_marks(v: &Vec<char>, sep: char) -> (r: Vec<Vec<char>>)
    ensures
        texts(r@) == split(v@, sep),
{
    let mut r: Vec<Vec<char>> = Vec::new();
    let mut from: usize = 0;
    loop
        invariant
            from <= v.len(),
            split(v@, sep) == texts(r@) + split_from(v@, sep, from as int),
        decreases v.len() - from,
    {
        let ghost seen = texts(r@);
        match find_mark(v, sep, from) {
            Some(i) => {
                let part = slice_of(v, from, i);
                r.push(part);
                proof {
                    assert(texts(r@) =~= seen.push(part@));
                    assert(seen.push(part@) + split_from(v@, sep, i + 1) =~= seen + (seq![part@]
                        + split_from(v@, sep, i + 1)));
                }
                from = i + 1;
            },
            None => {
                let part = slice_of(v, from, v.len());
                r.push(part);
                proof {
                    assert(part@ =~= v@.skip(from as int));
                    assert(from == v.len() ==> part@ =~= Seq::<char>::empty());
                    assert(texts(r@) =~= seen.push(part@));
                    assert(split_from(v@, sep, from as int) =~= seq![part@]);
                }
                return r;
            },
        }
    }
}

/// `v` with every occurrence of `p` taken out.
pub(crate) fn without(v: &Vec<char>, p: &str) -> (r: Vec<char>)
    ensures
        r@ == remove_all(v@, p@),
{
    let p = to_chars(p);
    let mut r: Vec<char> = Vec::new();
    let mut i: usize = 0;
    assert(v@.skip(0) =~= v@);
    while i < v.len()
        invariant
            i <= v.len(),
            remove_all(v@, p@) == r@ + remove_all(v@.skip(i as int), p@),
        decreases v.len() - i,
    {
        let ghost rest = v@.skip(i as int);
        proof {
            if i + p@.len() <= v@.len() {
                assert(rest.take(p@.len() as int) =~= v@.subrange(i as int, i + p@.len()));
            }
        }
        if p.len() > 0 && stands_at(v, &p, i) {
            assert(rest.skip(p@.len() as int) =~= v@.skip(i + p@.len()));
            i = i + p.len();
        } else {
            assert(rest[0] == v@[i as int]);
            assert(rest.skip(1) =~= v@.skip(i + 1));
            assert(r@ + (seq![rest[0]] + remove_all(rest.skip(1), p@)) =~= r@.push(rest[0])
                + remove_all(rest.skip(1), p@));
            r.push(v[i]);
            i = i + 1;
        }
    }
    assert(r@ + remove_all(v@.skip(i as int), p@) =~= r@);
    r
}

/// `v` without the repetitions of `p` that it begins with.
pub(crate) fn without_prefixes(v: &Vec<char>, p: &str) -> (r: Vec<char>)
    ensures
        r@ == strip_prefixes(v@, p@),
{
    let p = to_chars(p);
    let mut i: usize = 0;
    assert(v@.skip(0) =~= v@);
    while p.len() > 0 && stands_at(v, &p, i)
        invariant
            i <= v.len(),
            strip_prefixes(v@, p@) == strip_prefixes(v@.skip(i as int), p@),
        decreases v.len() - i,
    {
        let ghost rest = v@.skip(i as int);
        assert(rest.take(p@.len() as int) =~= v@.subrange(i as int, i + p@.len()));
        assert(rest.skip(p@.len() as int) =~= v@.skip(i + p@.len()));
        i = i + p.len();
    }
    proof {
        if i + p@.len() <= v@.len() {
            assert(v@.skip(i as int).take(p@.len() as int) =~= v@.subrange(i as int, i + p@.len()));
        }
        assert(v@.subrange(i as int, v@.len() as int) =~= v@.skip(i as int));
    }
    slice_of(v, i, v.len())
}

/// `v` without the repetitions of `c` that it ends with.
pub(crate) fn without_end(v: &Vec<char>, c: char) -> (r: Vec<char>)
    ensures
        r@ == strip_end(v@, c),
{
    let mut n: usize = v.len();
    assert(v@.take(v@.len() as int) =~= v@);
    while n > 0 && v[n - 1] == c
        invariant
            n <= v.len(),
            strip_end(v@, c) == strip_end(v@.take(n as int), c),
        decreases n,
    {
        assert(v@.take(n as int).last() == v@[n - 1]);
        assert(v@.take(n as int).drop_last() =~= v@.take(n - 1));
        n = n - 1;
    }
    assert(n > 0 ==> v@.take(n as int).last() == v@[n - 1]);
    assert(v@.subrange(0, n as int) =~= v@.take(n as int));
    slice_of(v, 0, n)
}

/// The number of characters of `v` from `from` on that stand before the first white space.
fn word_length(v: &Vec<char>, from: usize) -> (r: usize)
    requires
        from <= v.len(),
    ensures
        r == word_len(v@.skip(from as int)),
        from + r <= v.len(),
{
    let mut i: usize = from;
    while i < v.len() && !is_whitespace(v[i])
        invariant
            from <= i <= v.len(),
            word_len(v@.skip(from as int)) == (i - from) + word_len(v@.skip(i as int)),
        decreases v.len() - i,
    {
        assert(v@.skip(i as int)[0] == v@[i as int]);
        assert(v@.skip(i as int).skip(1) =~= v@.skip(i + 1));
        i = i + 1;
    }
    assert(i < v.len() ==> v@.skip(i as int)[0] == v@[i as int]);
    i - from
}

/// The first of the words of `v`.
pub(crate) fn leading_word(v: &Vec<char>) -> (r: Vec<char>)
    ensures
        r@ == first_word(v@),
{
    let t = trimmed_start(v);
    assert(t@.skip(0) =~= t@);
    let n = word_length(&t, 0);
    assert(t@.subrange(0, n as int) =~= t@.take(n as int));
    slice_of(&t, 0, n)
}

/// The words of `v`.
pub(crate) fn word_list(v: &Vec<char>) -> (r: Vec<Vec<char>>)
    ensures
        texts(r@) == words(v@),
{
    let mut r: Vec<Vec<char>> = Vec::new();
    let mut rest: Vec<char> = slice_of(v, 0, v.len());
    assert(rest@ =~= v@);
    loop
        invariant
            words(v@) == texts(r@) + words(rest@),
        decreases rest.len(),
    {
        let ghost seen = texts(r@);
        let t = trimmed_start(&rest);
        proof {
            lemma_trim_start_len(rest@);
            lemma_trim_start_head(rest@);
            lemma_word_len(t@);
        }
        if t.len() == 0 {
            assert(texts(r@) + words(rest@) =~= texts(r@));
            return r;
        }
        assert(t@.skip(0) =~= t@);
        let n = word_length(&t, 0);
        assert(t@.subrange(0, n as int) =~= t@.take(n as int));
        assert(t@.subrange(n as int, t@.len() as int) =~= t@.skip(n as int));
        let word = slice_of(&t, 0, n);
        let after = slice_of(&t, n, t.len());
        r.push(word);
        proof {
            assert(texts(r@) =~= seen.push(word@));
            assert(seen.push(word@) + words(after@) =~= seen + (seq![word@] + words(after@)));
        }
        rest = after;
    }
}

/// The number of bytes that UTF-8 takes for the first `n` characters of `v`.
pub(crate) fn bytes_of(v: &Vec<char>, n: usize) -> (r: u128)
    requires
        n <= v.len(),
    ensures
        r == byte_len(v@.take(n as int)),
        r <= 4 * n,
{
    let mut total: u128 = 0;
    let mut i: usize = 0;
    assert(v@.take(0) =~= Seq::<char>::empty());
    while i < n
        invariant
            i <= n <= v.len(),
            total == byte_len(v@.take(i as int)),
            total <= 4 * i,
        decreases n - i,
    {
        assert(v@.take(i + 1).drop_last() =~= v@.take(i as int));
        assert(v@.take(i + 1).last() == v@[i as int]);
        total = total + width_of(v[i]);
        i = i + 1;
    }
    total
}

/// The number of bytes that UTF-8 takes for `c`.
fn width_of(c: char) -> (r: u128)
    ensures
        r == utf8_width(c),
{
    if c <= '\u{7f}' {
        1
    } else if c <= '\u{7ff}' {
        2
    } else if c <= '\u{ffff}' {
        3
    } else {
        4
    }
}

/// The position of the character of `v` that begins at byte `offset` of its UTF-8 form.
pub(crate) fn index_of_byte(v: &Vec<char>, offset: u128) -> (r: Option<usize>)
    ensures
        (r matches Some(i) ==> char_index(v@, offset as int) == Some(i as int) && i <= v.len()),
        (r is None ==> char_index(v@, offset as int) is None),
{
    let mut left: u128 = offset;
    let mut i: usize = 0;
    assert(v@.skip(0) =~= v@);
    while i < v.len() && left > 0
        invariant
            i <= v.len(),
            char_index(v@, offset as int) == (match char_index(v@.skip(i as int), left as int) {
                Some(k) => Some(k + i),
                None => None::<int>,
            }),
        decreases v.len() - i,
    {
        let ghost rest = v@.skip(i as int);
        assert(rest[0] == v@[i as int]);
        assert(rest.skip(1) =~= v@.skip(i + 1));
        let w = width_of(v[i]);
        if left < w {
            return None;
        }
        left = left - w;
        i = i + 1;
    }
    if left == 0 {
        Some(i)
    } else {
        None
    }
}

// ---------------------------------------------------------------------------------------------
// Laws
// ---------------------------------------------------------------------------------------------

/// The characters that count as white space are these and no others.
pub proof fn law_white_space(c: char)
    ensures
        is_white(c) <==> {
            ||| c == '\t' || c == '\n' || c == '\u{b}' || c == '\u{c}' || c == '\r' || c == ' '
            ||| c == '\u{85}' || c == '\u{a0}' || c == '\u{1680}' || c == '\u{2000}'
            ||| c == '\u{2001}' || c == '\u{2002}' || c == '\u{2003}' || c == '\u{2004}'
            ||| c == '\u{2005}' || c == '\u{2006}' || c == '\u{2007}' || c == '\u{2008}'
            ||| c == '\u{2009}' || c == '\u{200a}' || c == '\u{2028}' || c == '\u{2029}'
            ||| c == '\u{202f}' || c == '\u{205f}' || c == '\u{3000}'
        },
{
}

/// Trimming the start takes off the white space before the first character that is none, and
/// nothing else.
pub proof fn law_trim_start_takes_space(space: Seq<char>, core: Seq<char>)
    requires
        forall|i: int| 0 <= i < space.len() ==> is_white(#[trigger] space[i]),
        core.len() > 0 ==> !is_white(core[0]),
    ensures
        trim_start(space + core) == core,
    decreases space.len(),
{
    let s = space + core;
    if space.len() == 0 {
        assert(s =~= core);
    } else {
        assert(s[0] == space[0]);
        let left = space.skip(1);
        assert forall|i: int| 0 <= i < left.len() implies is_white(#[trigger] left[i]) by {
            assert(left[i] == space[i + 1]);
        }
        assert(s.skip(1) =~= left + core);
        law_trim_start_takes_space(left, core);
    }
}

/// Trimming the end takes off the white space behind the last character that is none, and nothing
/// else.
pub proof fn law_trim_end_takes_space(core: Seq<char>, space: Seq<char>)
    requires
        forall|i: int| 0 <= i < space.len() ==> is_white(#[trigger] space[i]),
        core.len() > 0 ==> !is_white(core.last()),
    ensures
        trim_end(core + space) == core,
    decreases space.len(),
{
    let s = core + space;
    if space.len() == 0 {
        assert(s =~= core);
    } else {
        let left = space.drop_last();
        assert(s.last() == space[space.len() - 1]);
        assert forall|i: int| 0 <= i < left.len() implies is_white(#[trigger] left[i]) by {
            assert(left[i] == space[i]);
        }
        assert(s.drop_last() =~= core + left);
        law_trim_end_takes_space(core, left);
    }
}

/// Trimming takes off the white space on both sides of a text that neither begins nor ends with it,
/// and leaves that text as it is.
pub proof fn law_trim_takes_space(front: Seq<char>, core: Seq<char>, back: Seq<char>)
    requires
        forall|i: int| 0 <= i < front.len() ==> is_white(#[trigger] front[i]),
        forall|i: int| 0 <= i < back.len() ==> is_white(#[trigger] back[i]),
        core.len() > 0 ==> !is_white(core[0]) && !is_white(core.last()),
    ensures
        trim(front + core + back) == core,
{
    if core.len() == 0 {
        let s = front + core + back;
        let none = Seq::<char>::empty();
        assert forall|i: int| 0 <= i < s.len() implies is_white(#[trigger] s[i]) by {
            if i < front.len() {
                assert(s[i] == front[i]);
            } else {
                assert(s[i] == back[i - front.len()]);
            }
        }
        law_trim_start_takes_space(s, none);
        assert(s + none =~= s);
        assert(trim(s) =~= core);
    } else {
        assert(front + core + back =~= front + (core + back));
        law_trim_start_takes_space(front, core + back);
        law_trim_end_takes_space(core, back);
    }
}

/// White space in front of a text, or behind it, is trimmed off together with what the text has.
pub proof fn law_trim_ignores_space(c: char, s: Seq<char>)
    requires
        is_white(c),
    ensures
        trim(seq![c] + s) == trim(s),
        trim(s + seq![c]) == trim(s),
    decreases s.len(),
{
    assert((seq![c] + s).skip(1) =~= s);
    assert((seq![c] + s)[0] == c);
    let after = s + seq![c];
    if s.len() > 0 && is_white(s[0]) {
        law_trim_ignores_space(c, s.skip(1));
        assert(after.skip(1) =~= s.skip(1) + seq![c]);
        assert(after[0] == s[0]);
    } else if s.len() > 0 {
        assert(after[0] == s[0]);
        assert(after.last() == c);
        assert(after.drop_last() =~= s);
    } else {
        assert(after =~= seq![c]);
        assert(after.skip(1) =~= s);
    }
}

/// A text begins with another exactly where it is the other and something behind it, and ends with
/// another exactly where it is something and the other behind it.
pub proof fn law_begins_and_ends(p: Seq<char>, s: Seq<char>)
    ensures
        starts_with(p + s, p),
        ends_with(s + p, p),
        starts_with(s, p) ==> s == p + s.skip(p.len() as int),
        ends_with(s, p) ==> s == s.take(s.len() - p.len()) + p,
{
    assert((p + s).take(p.len() as int) =~= p);
    assert((s + p).skip(s.len() as int) =~= p);
    if starts_with(s, p) {
        assert(s =~= s.take(p.len() as int) + s.skip(p.len() as int));
    }
    if ends_with(s, p) {
        assert(s =~= s.take(s.len() - p.len()) + s.skip(s.len() - p.len()));
    }
}

/// A text stands at a place exactly where something of that length, the text, and the rest make up
/// the whole.
pub proof fn law_occurs_between(front: Seq<char>, p: Seq<char>, back: Seq<char>, s: Seq<char>, i: int)
    ensures
        occurs_at(front + p + back, p, front.len() as int),
        occurs_at(s, p, i) ==> s == s.take(i) + p + s.skip(i + p.len()),
        contains(front + p + back, p),
        contains(s, p) <==> exists|k: int| #[trigger] occurs_at(s, p, k),
{
    let whole = front + p + back;
    let n = front.len() as int;
    assert(whole.subrange(n, n + p.len()) =~= p);
    if occurs_at(s, p, i) {
        assert(s =~= s.take(i) + s.subrange(i, i + p.len()) + s.skip(i + p.len()));
    }
    law_find_is_first(whole, p, 0);
    law_find_is_first(s, p, 0);
    assert(occurs_at(whole, p, n));
}

/// What stands before the first mark is the text up to it; all of the text where there is none.
pub proof fn law_before_mark(head: Seq<char>, c: char, tail: Seq<char>)
    requires
        !head.contains(c),
    ensures
        before(head + seq![c] + tail, c) == head,
        before(head, c) == head,
        find_char(head + seq![c] + tail, c) == Some(head.len() as int),
        find_char(head, c) is None,
{
    let s = head + seq![c] + tail;
    let n = head.len() as int;
    lemma_find_char_from_bounds(s, c, 0);
    lemma_find_char_from_bounds(head, c, 0);
    assert(s[n] == c);
    assert forall|k: int| 0 <= k < n implies s[k] != c && head[k] != c by {
        assert(s[k] == head[k]);
        assert(head.contains(head[k]));
    }
    assert(s.take(n) =~= head);
}

/// A text without separators is one part. Together with [`law_parts_in_a_row`] this says what the
/// parts of every text are.
pub proof fn law_one_part(s: Seq<char>, sep: char)
    requires
        !s.contains(sep),
    ensures
        split(s, sep) == seq![s],
{
    law_before_mark(s, sep, Seq::empty());
    assert(s.skip(0) =~= s);
    assert(s.len() == 0 ==> s =~= Seq::empty());
}

/// Two parts that hold no separator, with a separator between them, are the two parts.
pub proof fn law_two_parts(a: Seq<char>, sep: char, b: Seq<char>)
    requires
        !a.contains(sep),
        !b.contains(sep),
    ensures
        split(a + seq![sep] + b, sep) == seq![a, b],
{
    law_parts_in_a_row(a, sep, b);
    law_one_part(a, sep);
    law_one_part(b, sep);
    assert(seq![a] + seq![b] =~= seq![a, b]);
}

/// Where `p` does not stand, nothing is taken out; and where it stands first behind `head`, `head`
/// stays, `p` goes, and what follows is treated in the same way.
pub proof fn law_remove_all(head: Seq<char>, p: Seq<char>, tail: Seq<char>)
    requires
        p.len() > 0,
        forall|k: int| 0 <= k < head.len() ==> !#[trigger] occurs_at(head + p + tail, p, k),
    ensures
        remove_all(head + p + tail, p) == head + remove_all(tail, p),
        remove_all(head, p) == head,
    decreases head.len(),
{
    let s = head + p + tail;
    if head.len() == 0 {
        assert(s.take(p.len() as int) =~= p);
        assert(s.skip(p.len() as int) =~= tail);
        assert(head + remove_all(tail, p) =~= remove_all(tail, p));
    } else {
        let left = head.skip(1);
        let rest = left + p + tail;
        assert(s.skip(1) =~= rest);
        assert(!occurs_at(s, p, 0));
        assert(s.subrange(0, 0int + p.len()) =~= s.take(p.len() as int));
        assert forall|k: int| 0 <= k < left.len() implies !#[trigger] occurs_at(rest, p, k) by {
            assert(!occurs_at(s, p, k + 1));
            if k + p.len() <= rest.len() {
                assert(rest.subrange(k, k + p.len()) =~= s.subrange(k + 1, k + 1 + p.len()));
            }
        }
        law_remove_all(left, p, tail);
        assert(s[0] == head[0]);
        assert(seq![head[0]] + (left + remove_all(tail, p)) =~= head + remove_all(tail, p));
        if starts_with(head, p) {
            assert(s.take(p.len() as int) =~= head.take(p.len() as int));
        }
        assert(seq![head[0]] + left =~= head);
    }
}

/// Where `p` does not stand in a text, nothing is taken out of it.
pub proof fn law_remove_nothing(s: Seq<char>, p: Seq<char>)
    requires
        forall|k: int| !#[trigger] occurs_at(s, p, k),
    ensures
        remove_all(s, p) == s,
    decreases s.len(),
{
    if s.len() > 0 {
        let left = s.skip(1);
        assert forall|k: int| !#[trigger] occurs_at(left, p, k) by {
            assert(!occurs_at(s, p, k + 1));
            if 0 <= k && k + p.len() <= left.len() {
                assert(left.subrange(k, k + p.len()) =~= s.subrange(k + 1, k + 1 + p.len()));
            }
        }
        law_remove_nothing(left, p);
        assert(!occurs_at(s, p, 0));
        if p.len() <= s.len() {
            assert(s.subrange(0, 0int + p.len()) =~= s.take(p.len() as int));
        }
        assert(seq![s[0]] + left =~= s);
    }
}

/// A repeated prefix goes as often as it is there; what does not begin with it stays.
pub proof fn law_strip_prefixes(s: Seq<char>, p: Seq<char>)
    requires
        p.len() > 0,
    ensures
        strip_prefixes(p + s, p) == strip_prefixes(s, p),
        !(p.len() <= s.len() && s.take(p.len() as int) == p) ==> strip_prefixes(s, p) == s,
{
    assert((p + s).take(p.len() as int) =~= p);
    assert((p + s).skip(p.len() as int) =~= s);
}

/// A mark at the end goes as often as it is there; a text that ends otherwise stays.
pub proof fn law_strip_end(core: Seq<char>, c: char, n: nat)
    requires
        core.len() > 0 ==> core.last() != c,
    ensures
        strip_end(core + Seq::new(n, |i: int| c), c) == core,
    decreases n,
{
    let s = core + Seq::new(n, |i: int| c);
    if n == 0 {
        assert(s =~= core);
    } else {
        let m = (n - 1) as nat;
        assert(s.last() == c);
        assert(s.drop_last() =~= core + Seq::new(m, |i: int| c));
        law_strip_end(core, c, m);
    }
}

/// The words of a text: white space separates them, and each is as long as it can be.
pub proof fn law_words(space: Seq<char>, word: Seq<char>, rest: Seq<char>)
    requires
        forall|i: int| 0 <= i < space.len() ==> is_white(#[trigger] space[i]),
        forall|i: int| 0 <= i < word.len() ==> !is_white(#[trigger] word[i]),
        word.len() > 0,
        rest.len() > 0 ==> is_white(rest[0]),
    ensures
        words(space + word + rest) == seq![word] + words(rest),
        first_word(space + word + rest) == word,
        words(space) == Seq::<Seq<char>>::empty(),
        first_word(space) == Seq::<char>::empty(),
{
    let s = space + word + rest;
    let t = word + rest;
    assert(s =~= space + t);
    assert(t[0] == word[0]);
    law_trim_start_takes_space(space, t);
    lemma_word_len_is(word, rest);
    assert(t.skip(word.len() as int) =~= rest);
    assert(t.take(word.len() as int) =~= word);
    lemma_trim_start_len(s);
    law_trim_start_takes_space(space, Seq::empty());
    assert(space + Seq::<char>::empty() =~= space);
    assert(first_word(space) =~= Seq::<char>::empty());
}

proof fn lemma_word_len_is(word: Seq<char>, rest: Seq<char>)
    requires
        forall|i: int| 0 <= i < word.len() ==> !is_white(#[trigger] word[i]),
        rest.len() > 0 ==> is_white(rest[0]),
    ensures
        word_len(word + rest) == word.len(),
    decreases word.len(),
{
    let t = word + rest;
    if word.len() == 0 {
        assert(t =~= rest);
    } else {
        let left = word.skip(1);
        assert(t[0] == word[0]);
        assert(t.skip(1) =~= left + rest);
        assert forall|i: int| 0 <= i < left.len() implies !is_white(#[trigger] left[i]) by {
            assert(left[i] == word[i + 1]);
        }
        lemma_word_len_is(left, rest);
    }
}

/// A character behind a text that is no separator belongs to its last part.
pub proof fn law_split_back(s: Seq<char>, c: char, sep: char)
    requires
        c != sep,
    ensures
        split(s, sep).len() > 0,
        split(s + seq![c], sep) == split(s, sep).drop_last() + seq![split(s, sep).last() + seq![c]],
    decreases s.len(),
{
    law_parts_hold_no_separator(s, sep, 0);
    if s.len() == 0 {
        law_one_part(s, sep);
        assert(s + seq![c] =~= seq![c]);
        law_one_part(seq![c], sep);
        assert(split(s + seq![c], sep) =~= split(s, sep).drop_last() + seq![split(s, sep).last() + seq![c]]);
    } else {
        let d = s[0];
        let rest = s.skip(1);
        law_split_back(rest, c, sep);
        let parts = split(rest, sep);
        assert(s =~= seq![d] + rest);
        assert(s + seq![c] =~= seq![d] + (rest + seq![c]));
        if d == sep {
            let none = Seq::<char>::empty();
            law_one_part(none, sep);
            law_parts_in_a_row(none, sep, rest);
            law_parts_in_a_row(none, sep, rest + seq![c]);
            assert(none + seq![sep] + rest =~= s);
            assert(none + seq![sep] + (rest + seq![c]) =~= s + seq![c]);
        } else {
            lemma_split_front(d, rest, sep);
            lemma_split_front(d, rest + seq![c], sep);
            if parts.len() == 1 {
                assert(seq![d] + (parts[0] + seq![c]) =~= seq![d] + parts[0] + seq![c]);
            }
        }
        assert(split(s + seq![c], sep) =~= split(s, sep).drop_last() + seq![split(s, sep).last() + seq![c]]);
    }
}

} // verus!

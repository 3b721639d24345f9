//! The decimal numbers that style sheets are read with.
use vstd::prelude::*;
use crate::letters::{ascii_lower, ascii_lowercase, occurs_any_case, stands_any_case};
use crate::text::{
    find_char, find_mark, law_before_mark, lemma_find_char_from_bounds, slice_of, to_chars,
};

verus! {

/// Whether `s` holds the digits `0` to `9` only.
pub open spec fn all_digits(s: Seq<char>) -> bool {
    forall|i: int| 0 <= i < s.len() ==> '0' <= #[trigger] s[i] <= '9'
}

/// `s` without the sign that it begins with.
pub open spec fn unsigned(s: Seq<char>) -> Seq<char> {
    if s.len() > 0 && (s[0] == '+' || s[0] == '-') {
        s.skip(1)
    } else {
        s
    }
}

/// Digits, with at most one point before, among or after them.
pub open spec fn is_mantissa(s: Seq<char>) -> bool {
    match find_char(s, '.') {
        Some(i) => all_digits(s.take(i)) && all_digits(s.skip(i + 1)) && s.len() > 1,
        None => all_digits(s) && s.len() > 0,
    }
}

/// Digits, with or without a sign before them.
pub open spec fn is_exponent(s: Seq<char>) -> bool {
    all_digits(unsigned(s)) && unsigned(s).len() > 0
}

/// The position of the first `e` or `E` of `s`.
pub open spec fn exponent_mark(s: Seq<char>, from: int) -> Option<int>
    decreases s.len() - from,
{
    if from < 0 || from >= s.len() {
        None
    } else if s[from] == 'e' || s[from] == 'E' {
        Some(from)
    } else {
        exponent_mark(s, from + 1)
    }
}

/// A mantissa, with or without an exponent after it.
pub open spec fn is_number(s: Seq<char>) -> bool {
    match exponent_mark(s, 0) {
        Some(i) => is_mantissa(s.take(i)) && is_exponent(s.skip(i + 1)),
        None => is_mantissa(s),
    }
}

/// Whether `s` is `word` in upper or lower case letters.
pub open spec fn is_word(s: Seq<char>, word: Seq<char>) -> bool {
    s.len() == word.len() && occurs_any_case(s, word, 0)
}

/// Whether `s` is a decimal floating-point literal: an optional sign, and then a number or one of
/// the words `inf`, `infinity` and `nan`.
pub open spec fn is_float_literal(s: Seq<char>) -> bool {
    let u = unsigned(s);
    is_number(u) || is_word(u, "inf"@) || is_word(u, "infinity"@) || is_word(u, "nan"@)
}

/// Whether `v` holds digits only from `from` to before `to`.
fn digits_between(v: &Vec<char>, from: usize, to: usize) -> (r: bool)
    requires
        from <= to <= v.len(),
    ensures
        r == all_digits(v@.subrange(from as int, to as int)),
{
    let ghost part = v@.subrange(from as int, to as int);
    let mut i: usize = from;
    while i < to
        invariant
            from <= i <= to <= v.len(),
            part == v@.subrange(from as int, to as int),
            forall|k: int| 0 <= k < i - from ==> '0' <= #[trigger] part[k] <= '9',
        decreases to - i,
    {
        assert(part[i - from] == v@[i as int]);
        if v[i] < '0' || v[i] > '9' {
            return false;
        }
        i = i + 1;
    }
    true
}

/// `v` without the sign that it begins with.
fn without_sign(v: &Vec<char>) -> (r: Vec<char>)
    ensures
        r@ == unsigned(v@),
{
    assert(v@.subrange(0, v@.len() as int) =~= v@);
    if v.len() > 0 && (v[0] == '+' || v[0] == '-') {
        assert(v@.subrange(1, v@.len() as int) =~= v@.skip(1));
        slice_of(v, 1, v.len())
    } else {
        slice_of(v, 0, v.len())
    }
}

fn mantissa(v: &Vec<char>) -> (r: bool)
    ensures
        r == is_mantissa(v@),
{
    match find_mark(v, '.', 0) {
        Some(i) => {
            assert(v@.subrange(0, i as int) =~= v@.take(i as int));
            assert(v@.subrange(i + 1, v@.len() as int) =~= v@.skip(i + 1));
            digits_between(v, 0, i) && digits_between(v, i + 1, v.len()) && v.len() > 1
        },
        None => {
            assert(v@.subrange(0, v@.len() as int) =~= v@);
            digits_between(v, 0, v.len()) && v.len() > 0
        },
    }
}

fn exponent(v: &Vec<char>) -> (r: bool)
    ensures
        r == is_exponent(v@),
{
    let u = without_sign(v);
    assert(u@.subrange(0, u@.len() as int) =~= u@);
    digits_between(&u, 0, u.len()) && u.len() > 0
}

fn number(v: &Vec<char>) -> (r: bool)
    ensures
        r == is_number(v@),
{
    let mut i: usize = 0;
    while i < v.len()
        invariant
            i <= v.len(),
            exponent_mark(v@, 0) == exponent_mark(v@, i as int),
        decreases v.len() - i,
    {
        if v[i] == 'e' || v[i] == 'E' {
            let head = slice_of(v, 0, i);
            let tail = slice_of(v, i + 1, v.len());
            assert(head@ =~= v@.take(i as int));
            assert(tail@ =~= v@.skip(i + 1));
            return mantissa(&head) && exponent(&tail);
        }
        i = i + 1;
    }
    mantissa(v)
}

fn word(v: &Vec<char>, w: &str) -> (r: bool)
    ensures
        r == is_word(v@, w@),
{
    let w = to_chars(w);
    v.len() == w.len() && stands_any_case(v, &w, 0)
}

/// Whether `v` is a decimal floating-point literal.
pub(crate) fn float_literal(v: &Vec<char>) -> (r: bool)
    ensures
        r == is_float_literal(v@),
{
    let u = without_sign(v);
    number(&u) || word(&u, "inf") || word(&u, "infinity") || word(&u, "nan")
}

// ---------------------------------------------------------------------------------------------
// Laws
// ---------------------------------------------------------------------------------------------

/// Whether `s` is a sign or nothing.
pub open spec fn is_sign(s: Seq<char>) -> bool {
    s.len() == 0 || s == seq!['+'] || s == seq!['-']
}

/// Whether `s` is put together of these parts: a sign, the digits before the point, the point, the
/// digits behind it, and an exponent of its mark, its sign and its digits. Only the digits of the
/// number and those of the exponent must be there.
pub open spec fn is_put_together(
    s: Seq<char>,
    sign: Seq<char>,
    whole: Seq<char>,
    point: Seq<char>,
    part: Seq<char>,
    mark: Seq<char>,
    exponent_sign: Seq<char>,
    power: Seq<char>,
) -> bool {
    &&& s == sign + whole + point + part + mark + exponent_sign + power
    &&& is_sign(sign)
    &&& forall|i: int| 0 <= i < whole.len() ==> '0' <= #[trigger] whole[i] <= '9'
    &&& forall|i: int| 0 <= i < part.len() ==> '0' <= #[trigger] part[i] <= '9'
    &&& forall|i: int| 0 <= i < power.len() ==> '0' <= #[trigger] power[i] <= '9'
    &&& point == seq!['.'] || point.len() == 0 && part.len() == 0
    &&& whole.len() + part.len() > 0
    &&& is_sign(exponent_sign)
    &&& {
        ||| (mark == seq!['e'] || mark == seq!['E']) && power.len() > 0
        ||| mark.len() == 0 && exponent_sign.len() == 0 && power.len() == 0
    }
}

/// A number of digits, with or without sign, point and exponent, is a literal.
pub proof fn law_numbers_are_literals(
    s: Seq<char>,
    sign: Seq<char>,
    whole: Seq<char>,
    point: Seq<char>,
    part: Seq<char>,
    mark: Seq<char>,
    exponent_sign: Seq<char>,
    power: Seq<char>,
)
    requires
        is_put_together(s, sign, whole, point, part, mark, exponent_sign, power),
    ensures
        is_float_literal(s),
{
    let mantissa = whole + point + part;
    let tail = exponent_sign + power;
    let u = mantissa + mark + tail;
    lemma_regroup(sign, whole, point, part, mark, exponent_sign, power);
    lemma_mantissa(whole, point, part);
    assert(u[0] == mantissa[0]);
    lemma_unsigned(sign, u);
    assert(u.take(mantissa.len() as int) =~= mantissa);
    lemma_exponent_mark(u, mantissa, 0);
    if mark.len() > 0 {
        assert(u[mantissa.len() as int] == mark[0]);
        assert(u.skip(mantissa.len() as int + 1) =~= tail);
        lemma_unsigned(exponent_sign, power);
    } else {
        assert(tail =~= Seq::<char>::empty());
        assert(u =~= mantissa);
        assert(exponent_mark(u, mantissa.len() as int) is None);
    }
    assert(is_number(u));
}

/// The parts of a number can be put together in groups.
proof fn lemma_regroup(
    sign: Seq<char>,
    whole: Seq<char>,
    point: Seq<char>,
    part: Seq<char>,
    mark: Seq<char>,
    exponent_sign: Seq<char>,
    power: Seq<char>,
)
    ensures
        sign + whole + point + part + mark + exponent_sign + power == sign + ((whole + point + part)
            + mark + (exponent_sign + power)),
{
    let mantissa = whole + point + part;
    assert(sign + whole + point + part =~= sign + mantissa);
    assert(sign + mantissa + mark + exponent_sign + power =~= sign + (mantissa + mark + (exponent_sign
        + power)));
}

/// A sign in front of what has none is taken off.
proof fn lemma_unsigned(sign: Seq<char>, u: Seq<char>)
    requires
        is_sign(sign),
        u.len() > 0 ==> u[0] != '+' && u[0] != '-',
    ensures
        unsigned(sign + u) == u,
{
    let s = sign + u;
    if sign.len() == 0 {
        assert(s =~= u);
    } else {
        assert(s[0] == sign[0]);
        assert(s.skip(1) =~= u);
    }
}

/// Digits before and behind a point are a mantissa.
proof fn lemma_mantissa(whole: Seq<char>, point: Seq<char>, part: Seq<char>)
    requires
        forall|i: int| 0 <= i < whole.len() ==> '0' <= #[trigger] whole[i] <= '9',
        forall|i: int| 0 <= i < part.len() ==> '0' <= #[trigger] part[i] <= '9',
        point == seq!['.'] || point.len() == 0 && part.len() == 0,
        whole.len() + part.len() > 0,
    ensures
        is_mantissa(whole + point + part),
        forall|k: int|
            0 <= k < (whole + point + part).len() ==> (whole + point + part)[k] == '.' || '0'
                <= #[trigger] (whole + point + part)[k] <= '9',
{
    let mantissa = whole + point + part;
    assert forall|k: int| 0 <= k < mantissa.len() implies mantissa[k] == '.' || '0' <= #[trigger] mantissa[k]
        <= '9' by {
        if k < whole.len() {
            assert(mantissa[k] == whole[k]);
        } else if k >= whole.len() + point.len() {
            assert(mantissa[k] == part[k - whole.len() - point.len()]);
        }
    }
    assert(!whole.contains('.'));
    law_before_mark(whole, '.', part);
    if point.len() > 0 {
        assert(mantissa =~= whole + seq!['.'] + part);
        assert(mantissa.take(whole.len() as int) =~= whole);
        assert(mantissa.skip(whole.len() as int + 1) =~= part);
    } else {
        assert(mantissa =~= whole);
    }
}

/// A mantissa holds no mark of an exponent.
proof fn lemma_exponent_mark(u: Seq<char>, mantissa: Seq<char>, from: int)
    requires
        0 <= from <= mantissa.len() <= u.len(),
        u.take(mantissa.len() as int) == mantissa,
        forall|k: int| 0 <= k < mantissa.len() ==> mantissa[k] == '.' || '0' <= #[trigger] mantissa[k] <= '9',
    ensures
        exponent_mark(u, from) == exponent_mark(u, mantissa.len() as int),
    decreases mantissa.len() - from,
{
    if from < mantissa.len() {
        assert(u.take(mantissa.len() as int)[from] == mantissa[from]);
        lemma_exponent_mark(u, mantissa, from + 1);
    }
}

/// A literal is such a number, or one of three words with or without a sign, in upper or lower case
/// letters.
pub proof fn law_literals_are_numbers(s: Seq<char>)
    requires
        is_float_literal(s),
    ensures
        ({
            ||| exists|
                sign: Seq<char>,
                whole: Seq<char>,
                point: Seq<char>,
                part: Seq<char>,
                mark: Seq<char>,
                exponent_sign: Seq<char>,
                power: Seq<char>,
            | #[trigger]
                is_put_together(s, sign, whole, point, part, mark, exponent_sign, power)
            ||| exists|sign: Seq<char>, word: Seq<char>|
                is_sign(sign) && s == #[trigger] (sign + word) && (ascii_lowercase(word) == "inf"@
                    || ascii_lowercase(word) == "infinity"@ || ascii_lowercase(word) == "nan"@)
        }),
{
    let none = Seq::<char>::empty();
    let u = unsigned(s);
    let sign = s.take(s.len() - u.len());
    assert(s =~= sign + u);
    assert(is_sign(sign)) by {
        if s.len() > u.len() {
            assert(sign =~= seq![s[0]]);
        }
    }
    if is_number(u) {
        lemma_exponent_mark_bounds(u, 0);
        let (mantissa, mark, tail) = match exponent_mark(u, 0) {
            Some(i) => (u.take(i), seq![u[i]], u.skip(i + 1)),
            None => (u, none, none),
        };
        assert(u =~= mantissa + mark + tail);
        assert(is_mantissa(mantissa));
        lemma_find_char_from_bounds(mantissa, '.', 0);
        let (whole, point, part) = match find_char(mantissa, '.') {
            Some(i) => (mantissa.take(i), seq!['.'], mantissa.skip(i + 1)),
            None => (mantissa, none, none),
        };
        assert(mantissa =~= whole + point + part);
        let power = if mark.len() > 0 {
            unsigned(tail)
        } else {
            none
        };
        let exponent_sign = tail.take(tail.len() - power.len());
        assert(tail =~= exponent_sign + power);
        assert(is_sign(exponent_sign)) by {
            if tail.len() > power.len() {
                assert(exponent_sign =~= seq![tail[0]]);
            }
        }
        lemma_regroup(sign, whole, point, part, mark, exponent_sign, power);
        assert(is_put_together(s, sign, whole, point, part, mark, exponent_sign, power));
    } else {
        assert(u.subrange(0, u.len() as int) =~= u);
        assert(s == sign + u);
    }
}

proof fn lemma_exponent_mark_bounds(s: Seq<char>, from: int)
    requires
        0 <= from,
    ensures
        exponent_mark(s, from) matches Some(i) ==> from <= i < s.len() && (s[i] == 'e' || s[i] == 'E'),
    decreases s.len() - from,
{
    if from < s.len() && s[from] != 'e' && s[from] != 'E' {
        lemma_exponent_mark_bounds(s, from + 1);
    }
}

/// The words that stand for what no digits can say are literals, in upper or lower case letters.
pub proof fn law_words_are_literals(sign: Seq<char>, word: Seq<char>)
    requires
        is_sign(sign),
        ascii_lowercase(word) == "inf"@ || ascii_lowercase(word) == "infinity"@ || ascii_lowercase(word)
            == "nan"@,
    ensures
        is_float_literal(sign + word),
{
    reveal_strlit("inf");
    reveal_strlit("infinity");
    reveal_strlit("nan");
    assert(word.subrange(0, word.len() as int) =~= word);
    assert(ascii_lowercase(word).len() == word.len());
    assert(ascii_lowercase(word)[0] == ascii_lower(word[0]));
    lemma_unsigned(sign, word);
}

} // verus!

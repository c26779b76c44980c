//! # Scanning
//!
//! The cuts a parser makes in a run of characters: trimming, splitting and
//! searching, each stated on the characters themselves.

use crate::text::{push_char, Text};
use vstd::prelude::*;
use vstd::slice::*;
use vstd::string::*;
use vstd::utf8::*;

verus! {

/// The characters of a string.
pub fn chars_of(text: &str) -> (chars: Vec<char>)
    ensures
        chars@ == text@,
{
    let mut chars: Vec<char> = Vec::new();
    for c in iter: text.chars()
        invariant
            chars@ =~= iter.seq().take(iter.index()),
            iter.seq() == text@,
    {
        chars.push(c);
    }
    assert(chars@ =~= text@);
    chars
}

/// A string of the given characters.
pub fn text_of(chars: &[char]) -> (text: String)
    ensures
        text@ == chars@,
{
    let mut text = String::new();
    append_chars(&mut text, chars);
    assert(text@ =~= chars@);
    text
}

/// Appends characters to a string.
pub fn append_chars(text: &mut String, chars: &[char])
    ensures
        final(text)@ == old(text)@ + chars@,
{
    let ghost before = text@;
    let mut i: usize = 0;
    while i < chars.len()
        invariant
            i <= chars.len(),
            text@ =~= before + chars@.take(i as int),
        decreases chars.len() - i,
    {
        push_char(text, chars[i]);
        i = i + 1;
    }
    assert(chars@.take(i as int) =~= chars@);
}

/// Whether characters spell a string.
pub fn spells(chars: &[char], text: &str) -> (same: bool)
    ensures
        same == (chars@ == text@),
{
    let other = chars_of(text);
    if chars.len() != other.len() {
        return false;
    }
    let mut i: usize = 0;
    while i < chars.len()
        invariant
            i <= chars.len(),
            chars.len() == other.len(),
            other@ == text@,
            forall|j: int| 0 <= j < i ==> chars@[j] == other@[j],
        decreases chars.len() - i,
    {
        if chars[i] != other[i] {
            return false;
        }
        i = i + 1;
    }
    assert(chars@ =~= other@);
    true
}

/// Where a character first stands, or the length where it does not.
pub open spec fn find_char(text: Text, c: char) -> int
    decreases text.len(),
{
    if text.len() == 0 {
        0
    } else if text[0] == c {
        0
    } else {
        1 + find_char(text.drop_first(), c)
    }
}

/// The place of a character lies within the text, and no earlier place
/// holds it.
pub proof fn lemma_find_char(text: Text, c: char)
    ensures
        0 <= find_char(text, c) <= text.len(),
        forall|i: int| 0 <= i < find_char(text, c) ==> text[i] != c,
        find_char(text, c) < text.len() ==> text[find_char(text, c)] == c,
    decreases text.len(),
{
    if text.len() > 0 && text[0] != c {
        lemma_find_char(text.drop_first(), c);
        let rest = text.drop_first();
        assert forall|i: int| 0 <= i < find_char(text, c) implies text[i] != c by {
            if i > 0 {
                assert(text[i] == rest[i - 1]);
            }
        }
    }
}

/// The place of a character that follows none of its like.
pub proof fn lemma_find_char_at(text: Text, c: char, at: int)
    requires
        0 <= at <= text.len(),
        forall|i: int| 0 <= i < at ==> text[i] != c,
        at < text.len() ==> text[at] == c,
    ensures
        find_char(text, c) == at,
{
    lemma_find_char(text, c);
    let found = find_char(text, c);
    if found < at {
        assert(text[found] != c);
    } else if at < found {
        assert(text[at] != c);
    }
}

/// Where a character first stands, or the length where it does not.
pub fn find(text: &[char], c: char) -> (at: usize)
    ensures
        at == find_char(text@, c),
        at <= text.len(),
{
    let mut i: usize = 0;
    while i < text.len()
        invariant
            i <= text.len(),
            forall|j: int| 0 <= j < i ==> text@[j] != c,
        decreases text.len() - i,
    {
        if text[i] == c {
            proof {
                lemma_find_char_at(text@, c, i as int);
            }
            return i;
        }
        i = i + 1;
    }
    proof {
        lemma_find_char_at(text@, c, i as int);
    }
    i
}

/// Where a character last stands.
pub open spec fn rfind_char(text: Text, c: char) -> Option<int>
    decreases text.len(),
{
    if text.len() == 0 {
        None
    } else if text.last() == c {
        Some(text.len() - 1)
    } else {
        rfind_char(text.drop_last(), c)
    }
}

/// Where a character last stands.
pub fn rfind(text: &[char], c: char) -> (at: Option<usize>)
    ensures
        match at {
            Some(at) => rfind_char(text@, c) == Some(at as int) && at < text.len(),
            None => rfind_char(text@, c) is None,
        },
{
    let mut i: usize = text.len();
    assert(text@.take(i as int) =~= text@);
    while i > 0
        invariant
            i <= text.len(),
            rfind_char(text@, c) == rfind_char(text@.take(i as int), c),
        decreases i,
    {
        assert(text@.take(i as int).drop_last() =~= text@.take(i - 1));
        assert(text@.take(i as int).last() == text@[i - 1]);
        if text[i - 1] == c {
            return Some(i - 1);
        }
        i = i - 1;
    }
    None
}

/// The two sides of the first such character.
pub open spec fn cut_once(text: Text, c: char) -> Option<(Text, Text)> {
    let at = find_char(text, c);
    if at < text.len() {
        Some((text.take(at), text.skip(at + 1)))
    } else {
        None
    }
}

/// The two sides of the first such character.
pub fn split_once<'a>(text: &'a [char], c: char) -> (cut: Option<(&'a [char], &'a [char])>)
    ensures
        match cut {
            Some((head, tail)) => cut_once(text@, c) == Some((head@, tail@)),
            None => cut_once(text@, c) is None,
        },
{
    let at = find(text, c);
    if at < text.len() {
        let head = slice_subrange(text, 0, at);
        let tail = slice_subrange(text, at + 1, text.len());
        proof {
            assert(head@ =~= text@.take(at as int));
            assert(tail@ =~= text@.skip(at + 1));
        }
        Some((head, tail))
    } else {
        None
    }
}

/// The pieces between such characters; one more than there are of them.
pub open spec fn split_on(text: Text, c: char) -> Seq<Text>
    decreases text.len(),
{
    let at = find_char(text, c);
    if 0 <= at < text.len() {
        seq![text.take(at)] + split_on(text.skip(at + 1), c)
    } else {
        seq![text]
    }
}

/// What each piece holds.
pub open spec fn pieces(parts: Seq<&[char]>) -> Seq<Text> {
    parts.map_values(|part: &[char]| part@)
}

/// The pieces between such characters.
pub fn split<'a>(text: &'a [char], c: char) -> (parts: Vec<&'a [char]>)
    ensures
        pieces(parts@) == split_on(text@, c),
        parts@.len() > 0,
{
    let mut parts: Vec<&'a [char]> = Vec::new();
    let mut from: usize = 0;
    assert(text@.skip(0) =~= text@);
    assert(pieces(parts@) + split_on(text@, c) =~= split_on(text@, c));
    loop
        invariant_except_break
            from <= text.len(),
            pieces(parts@) + split_on(text@.skip(from as int), c) =~= split_on(text@, c),
        ensures
            pieces(parts@) == split_on(text@, c),
            parts@.len() > 0,
        decreases text.len() - from,
    {
        let rest = slice_subrange(text, from, text.len());
        assert(rest@ =~= text@.skip(from as int));
        let at = find(rest, c);
        let ghost before = pieces(parts@);
        if at < rest.len() {
            let part = slice_subrange(rest, 0, at);
            parts.push(part);
            proof {
                assert(part@ =~= rest@.take(at as int));
                assert(rest@.skip(at + 1) =~= text@.skip(from + at + 1));
                assert(pieces(parts@) =~= before.push(part@));
            }
            from = from + at + 1;
        } else {
            parts.push(rest);
            proof {
                assert(pieces(parts@) =~= before.push(rest@));
            }
            break;
        }
    }
    parts
}

/// Whether a character is white space: the characters of the Unicode
/// property of that name.
pub open spec fn is_white(c: char) -> bool {
    ||| '\u{9}' <= c <= '\u{d}'
    ||| c == ' '
    ||| c == '\u{85}'
    ||| c == '\u{a0}'
    ||| c == '\u{1680}'
    ||| '\u{2000}' <= c <= '\u{200a}'
    ||| c == '\u{2028}'
    ||| c == '\u{2029}'
    ||| c == '\u{202f}'
    ||| c == '\u{205f}'
    ||| c == '\u{3000}'
}

/// Whether a character is white space.
pub fn white(c: char) -> (yes: bool)
    ensures
        yes == is_white(c),
{
    ('\u{9}' <= c && c <= '\u{d}') || c == ' ' || c == '\u{85}' || c == '\u{a0}' || c == '\u{1680}'
        || ('\u{2000}' <= c && c <= '\u{200a}') || c == '\u{2028}' || c == '\u{2029}' || c
        == '\u{202f}' || c == '\u{205f}' || c == '\u{3000}'
}

/// A text without the white space it starts with.
pub open spec fn trim_start(text: Text) -> Text
    decreases text.len(),
{
    if text.len() > 0 && is_white(text[0]) {
        trim_start(text.drop_first())
    } else {
        text
    }
}

/// A text without the white space it ends with.
pub open spec fn trim_end(text: Text) -> Text
    decreases text.len(),
{
    if text.len() > 0 && is_white(text.last()) {
        trim_end(text.drop_last())
    } else {
        text
    }
}

/// A text without the white space around it.
pub open spec fn trim(text: Text) -> Text {
    trim_end(trim_start(text))
}

/// A text without the white space around it.
pub fn trimmed<'a>(text: &'a [char]) -> (rest: &'a [char])
    ensures
        rest@ == trim(text@),
{
    let mut from: usize = 0;
    assert(text@.skip(0) =~= text@);
    while from < text.len() && white(text[from])
        invariant
            from <= text.len(),
            trim_start(text@) == trim_start(text@.skip(from as int)),
        decreases text.len() - from,
    {
        assert(text@.skip(from as int)[0] == text@[from as int]);
        assert(text@.skip(from as int).drop_first() =~= text@.skip(from + 1));
        from = from + 1;
    }
    proof {
        if from < text.len() {
            assert(text@.skip(from as int)[0] == text@[from as int]);
        }
    }
    let rest = slice_subrange(text, from, text.len());
    assert(rest@ =~= text@.skip(from as int));
    assert(rest@ == trim_start(text@));
    let mut to: usize = rest.len();
    assert(rest@.take(to as int) =~= rest@);
    while to > 0 && white(rest[to - 1])
        invariant
            to <= rest.len(),
            trim_end(rest@) == trim_end(rest@.take(to as int)),
        decreases to,
    {
        assert(rest@.take(to as int).last() == rest@[to - 1]);
        assert(rest@.take(to as int).drop_last() =~= rest@.take(to - 1));
        to = to - 1;
    }
    proof {
        if to > 0 {
            assert(rest@.take(to as int).last() == rest@[to - 1]);
        }
    }
    let out = slice_subrange(rest, 0, to);
    assert(out@ =~= rest@.take(to as int));
    out
}

/// A text without the given character around it.
pub open spec fn unwrap_char(text: Text, c: char) -> Text
    decreases text.len(),
{
    if text.len() > 0 && text[0] == c {
        unwrap_char(text.drop_first(), c)
    } else if text.len() > 0 && text.last() == c {
        unwrap_char(text.drop_last(), c)
    } else {
        text
    }
}

/// A text without the given character around it.
pub fn unwrapped<'a>(text: &'a [char], c: char) -> (rest: &'a [char])
    ensures
        rest@ == unwrap_char(text@, c),
{
    let mut from: usize = 0;
    let mut to: usize = text.len();
    assert(text@.subrange(0, to as int) =~= text@);
    while from < to && (text[from] == c || text[to - 1] == c)
        invariant
            from <= to <= text.len(),
            unwrap_char(text@, c) == unwrap_char(text@.subrange(from as int, to as int), c),
        decreases to - from,
    {
        let ghost part = text@.subrange(from as int, to as int);
        assert(part[0] == text@[from as int]);
        assert(part.last() == text@[to - 1]);
        if text[from] == c {
            assert(part.drop_first() =~= text@.subrange(from + 1, to as int));
            from = from + 1;
        } else {
            assert(part.drop_last() =~= text@.subrange(from as int, to - 1));
            to = to - 1;
        }
    }
    proof {
        let part = text@.subrange(from as int, to as int);
        if from < to {
            assert(part[0] == text@[from as int]);
            assert(part.last() == text@[to - 1]);
        }
    }
    slice_subrange(text, from, to)
}

/// How many characters a text starts with before its first white space.
pub open spec fn word_len(text: Text) -> int
    decreases text.len(),
{
    if text.len() == 0 || is_white(text[0]) {
        0
    } else {
        1 + word_len(text.drop_first())
    }
}

proof fn lemma_word_len(text: Text)
    ensures
        0 <= word_len(text) <= text.len(),
        forall|i: int| 0 <= i < word_len(text) ==> !is_white(#[trigger] text[i]),
        word_len(text) < text.len() ==> is_white(text[word_len(text)]),
    decreases text.len(),
{
    if text.len() > 0 && !is_white(text[0]) {
        lemma_word_len(text.drop_first());
        let rest = text.drop_first();
        assert forall|i: int| 0 <= i < word_len(text) implies !is_white(#[trigger] text[i]) by {
            if i > 0 {
                assert(text[i] == rest[i - 1]);
            }
        }
    }
}

proof fn lemma_trim_start_len(text: Text)
    ensures
        trim_start(text).len() <= text.len(),
        trim_start(text).len() > 0 ==> !is_white(trim_start(text)[0]),
    decreases text.len(),
{
    if text.len() > 0 && is_white(text[0]) {
        lemma_trim_start_len(text.drop_first());
    }
}

/// The runs of characters between white space.
pub open spec fn words_of(text: Text) -> Seq<Text>
    decreases text.len(),
    via words_of_shrinks
{
    let rest = trim_start(text);
    if rest.len() == 0 {
        Seq::empty()
    } else {
        let n = word_len(rest);
        seq![rest.take(n)] + words_of(rest.skip(n))
    }
}

#[via_fn]
proof fn words_of_shrinks(text: Text) {
    lemma_trim_start_len(text);
    let rest = trim_start(text);
    if rest.len() > 0 {
        lemma_word_len(rest);
    }
}

/// The runs of characters between white space.
pub fn words<'a>(text: &'a [char]) -> (parts: Vec<&'a [char]>)
    ensures
        pieces(parts@) == words_of(text@),
{
    let mut parts: Vec<&'a [char]> = Vec::new();
    let mut from: usize = 0;
    assert(text@.skip(0) =~= text@);
    assert(pieces(parts@) + words_of(text@) =~= words_of(text@));
    loop
        invariant
            from <= text.len(),
            pieces(parts@) + words_of(text@.skip(from as int)) =~= words_of(text@),
        ensures
            pieces(parts@) == words_of(text@),
        decreases text.len() - from,
    {
        let ghost tail = text@.skip(from as int);
        let mut start: usize = from;
        while start < text.len() && white(text[start])
            invariant
                from <= start <= text.len(),
                tail == text@.skip(from as int),
                trim_start(tail) == trim_start(text@.skip(start as int)),
            decreases text.len() - start,
        {
            assert(text@.skip(start as int)[0] == text@[start as int]);
            assert(text@.skip(start as int).drop_first() =~= text@.skip(start + 1));
            start = start + 1;
        }
        let ghost rest = text@.skip(start as int);
        proof {
            if start < text.len() {
                assert(rest[0] == text@[start as int]);
            }
            assert(trim_start(tail) == rest);
        }
        if start >= text.len() {
            assert(rest.len() == 0);
            assert(pieces(parts@) + Seq::<Text>::empty() =~= pieces(parts@));
            break;
        }
        let mut end: usize = start;
        while end < text.len() && !white(text[end])
            invariant
                start <= end <= text.len(),
                rest == text@.skip(start as int),
                forall|i: int| 0 <= i < end - start ==> !is_white(#[trigger] rest[i]),
            decreases text.len() - end,
        {
            assert(rest[end - start] == text@[end as int]);
            end = end + 1;
        }
        proof {
            lemma_word_len(rest);
            let n = word_len(rest);
            if n < end - start {
                assert(!is_white(rest[n]));
            }
            if end - start < n {
                assert(rest[end - start] == text@[end as int]);
                assert(!is_white(rest[end - start]));
            }
            assert(n == end - start);
        }
        let ghost before = pieces(parts@);
        let part = slice_subrange(text, start, end);
        parts.push(part);
        proof {
            assert(part@ =~= rest.take(end - start));
            assert(rest.skip(end - start) =~= text@.skip(end as int));
            assert(pieces(parts@) =~= before.push(part@));
            if end == start {
                assert(is_white(rest[0]));
            }
        }
        from = end;
    }
    parts
}

/// An ASCII letter in lower case, any other character as it is.
pub open spec fn lower_char(c: char) -> char {
    if 'A' <= c <= 'Z' {
        ((c as u32) + 32) as char
    } else {
        c
    }
}

/// A text with its ASCII letters in lower case.
pub open spec fn lower_ascii(text: Text) -> Text {
    text.map_values(|c: char| lower_char(c))
}

/// An ASCII letter in upper case, any other character as it is.
pub open spec fn upper_char(c: char) -> char {
    if 'a' <= c <= 'z' {
        ((c as u32) - 32) as char
    } else {
        c
    }
}

/// A text with its ASCII letters in upper case.
pub open spec fn upper_ascii(text: Text) -> Text {
    text.map_values(|c: char| upper_char(c))
}

/// Whether two characters are the same, ASCII case aside.
fn same_letter(a: char, b: char) -> (same: bool)
    ensures
        same == (lower_char(a) == lower_char(b)),
{
    let x: u32 = if 'A' <= a && a <= 'Z' {
        a as u32 + 32
    } else {
        a as u32
    };
    let y: u32 = if 'A' <= b && b <= 'Z' {
        b as u32 + 32
    } else {
        b as u32
    };
    x == y
}

/// Whether characters spell a string, ASCII case aside.
pub fn spells_any_case(chars: &[char], text: &str) -> (same: bool)
    ensures
        same == (lower_ascii(chars@) == lower_ascii(text@)),
{
    let other = chars_of(text);
    if chars.len() != other.len() {
        assert(lower_ascii(chars@).len() != lower_ascii(text@).len());
        return false;
    }
    let mut i: usize = 0;
    while i < chars.len()
        invariant
            i <= chars.len(),
            chars.len() == other.len(),
            other@ == text@,
            forall|j: int| 0 <= j < i ==> lower_char(chars@[j]) == lower_char(other@[j]),
        decreases chars.len() - i,
    {
        if !same_letter(chars[i], other[i]) {
            assert(lower_ascii(chars@)[i as int] != lower_ascii(text@)[i as int]);
            return false;
        }
        i = i + 1;
    }
    assert(lower_ascii(chars@) =~= lower_ascii(text@));
    true
}

/// The lowercase form of a text, as the standard library maps it.
pub uninterp spec fn lowercase(text: Seq<char>) -> Seq<char>;

/// The lowercase form of a string, by `str::to_lowercase`: a function of
/// its characters alone, and the ASCII mapping on a string of ASCII.
#[verifier::external_body]
pub(crate) fn to_lower(text: &str) -> (lower: String)
    ensures
        lower@ == lowercase(text@),
        is_ascii_chars(text@) ==> lower@ == lower_ascii(text@),
{
    text.to_lowercase()
}

/// The uppercase form of a text, as the standard library maps it.
pub uninterp spec fn uppercase(text: Seq<char>) -> Seq<char>;

/// The uppercase form of a string, by `str::to_uppercase`: a function of
/// its characters alone, and the ASCII mapping on a string of ASCII.
#[verifier::external_body]
pub(crate) fn to_upper(text: &str) -> (upper: String)
    ensures
        upper@ == uppercase(text@),
        is_ascii_chars(text@) ==> upper@ == upper_ascii(text@),
{
    text.to_uppercase()
}

/// The text bytes spell, what is no UTF-8 replaced.
pub uninterp spec fn lossy_text(bytes: Seq<u8>) -> Seq<char>;

/// The text bytes spell, by `String::from_utf8_lossy`: a function of the
/// bytes alone, and the text they encode where they are UTF-8.
#[verifier::external_body]
pub(crate) fn from_lossy(bytes: &[u8]) -> (text: String)
    ensures
        text@ == lossy_text(bytes@),
        valid_utf8(bytes@) ==> text@ == decode_utf8(bytes@),
{
    String::from_utf8_lossy(bytes).into_owned()
}

/// Whether a character is an ASCII digit.
pub open spec fn is_digit(c: char) -> bool {
    '0' <= c <= '9'
}

/// Whether a text is one or more ASCII digits.
pub open spec fn all_digits(text: Text) -> bool {
    text.len() > 0 && forall|i: int| 0 <= i < text.len() ==> is_digit(#[trigger] text[i])
}

/// The number digits spell.
pub open spec fn digits_value(text: Text) -> nat
    decreases text.len(),
{
    if text.len() == 0 {
        0
    } else {
        10 * digits_value(text.drop_last()) + ((text.last() as u32) - ('0' as u32)) as nat
    }
}

/// The number a text spells in decimal, a sign allowed, `-` only where
/// the number may be negative.
pub open spec fn decimal_value(text: Text, signed: bool) -> Option<int> {
    if text.len() > 0 && text[0] == '+' && all_digits(text.drop_first()) {
        Some(digits_value(text.drop_first()) as int)
    } else if signed && text.len() > 0 && text[0] == '-' && all_digits(text.drop_first()) {
        Some(-(digits_value(text.drop_first()) as int))
    } else if all_digits(text) {
        Some(digits_value(text) as int)
    } else {
        None
    }
}

/// The number a text spells, where it lies within the bounds.
pub open spec fn bounded_decimal(text: Text, signed: bool, low: int, high: int) -> Option<int> {
    match decimal_value(text, signed) {
        Some(value) => if low <= value <= high {
            Some(value)
        } else {
            None
        },
        None => None,
    }
}

proof fn lemma_digits_grow(text: Text, i: int)
    requires
        all_digits(text),
        0 <= i <= text.len(),
    ensures
        digits_value(text.take(i)) <= digits_value(text),
    decreases text.len() - i,
{
    if i < text.len() {
        assert(text.take(i + 1).drop_last() =~= text.take(i));
        assert(text.take(i + 1).last() == text[i]);
        assert(is_digit(text[i]));
        lemma_digits_grow(text, i + 1);
    } else {
        assert(text.take(i) =~= text);
    }
}

/// The number digits spell, `None` past the bound.
fn digits_up_to(text: &[char], bound: u64) -> (value: Option<u64>)
    requires
        bound < 0x8000_0000_0000_0001,
    ensures
        match value {
            Some(value) => all_digits(text@) && digits_value(text@) == value && value <= bound,
            None => !all_digits(text@) || digits_value(text@) > bound,
        },
{
    if text.len() == 0 {
        return None;
    }
    let mut k: usize = 0;
    while k < text.len()
        invariant
            k <= text.len(),
            forall|j: int| 0 <= j < k ==> is_digit(#[trigger] text@[j]),
        decreases text.len() - k,
    {
        if !('0' <= text[k] && text[k] <= '9') {
            assert(!is_digit(text@[k as int]));
            return None;
        }
        k = k + 1;
    }
    let mut value: u64 = 0;
    let mut i: usize = 0;
    while i < text.len()
        invariant
            i <= text.len(),
            all_digits(text@),
            value == digits_value(text@.take(i as int)),
            value <= bound,
            bound < 0x8000_0000_0000_0001,
        decreases text.len() - i,
    {
        proof {
            assert(text@.take(i + 1).drop_last() =~= text@.take(i as int));
            assert(text@.take(i + 1).last() == text@[i as int]);
            assert(is_digit(text@[i as int]));
            lemma_digits_grow(text@, i + 1);
        }
        let digit: u64 = (text[i] as u32 - '0' as u32) as u64;
        if value > (bound - if digit <= bound { digit } else { bound }) / 10 || digit > bound {
            assert(digits_value(text@.take(i + 1)) > bound);
            return None;
        }
        value = value * 10 + digit;
        i = i + 1;
    }
    assert(text@.take(i as int) =~= text@);
    Some(value)
}

/// The unsigned number a text spells, up to a bound.
pub fn parse_unsigned(text: &[char], high: u64) -> (value: Option<u64>)
    requires
        high < 0x8000_0000_0000_0001,
    ensures
        match value {
            Some(value) => bounded_decimal(text@, false, 0, high as int) == Some(value as int),
            None => bounded_decimal(text@, false, 0, high as int) is None,
        },
{
    if text.len() > 0 && text[0] == '+' {
        let rest = slice_subrange(text, 1, text.len());
        assert(rest@ =~= text@.drop_first());
        assert(!is_digit(text@[0]));
        return digits_up_to(rest, high);
    }
    digits_up_to(text, high)
}

/// The signed number a text spells, from `-high - 1` to `high`.
pub fn parse_signed(text: &[char], high: i64) -> (value: Option<i64>)
    requires
        0 <= high,
    ensures
        match value {
            Some(value) => bounded_decimal(text@, true, -high - 1, high as int) == Some(
                value as int,
            ),
            None => bounded_decimal(text@, true, -high - 1, high as int) is None,
        },
{
    if text.len() > 0 && text[0] == '-' {
        let rest = slice_subrange(text, 1, text.len());
        assert(rest@ =~= text@.drop_first());
        assert(!is_digit(text@[0]));
        return match digits_up_to(rest, high as u64 + 1) {
            Some(value) => if value == high as u64 + 1 {
                Some(-high - 1)
            } else {
                Some(-(value as i64))
            },
            None => None,
        };
    }
    match parse_unsigned(text, high as u64) {
        Some(value) => Some(value as i64),
        None => None,
    }
}

/// A number below ten as its digit.
pub open spec fn digit_char(n: int) -> char {
    (('0' as u32) + n) as char
}

/// A number in decimal, without leading zeros.
pub open spec fn decimal_text(n: nat) -> Text
    decreases n,
{
    if n < 10 {
        seq![digit_char(n as int)]
    } else {
        decimal_text(n / 10).push(digit_char((n % 10) as int))
    }
}

/// A number below ten as its digit.
fn digit_of(n: u8) -> (c: char)
    requires
        n < 10,
    ensures
        c == digit_char(n as int),
{
    (0x30 + n) as char
}

/// Appends a number in decimal.
pub fn push_decimal(text: &mut String, n: u64)
    ensures
        final(text)@ == old(text)@ + decimal_text(n as nat),
    decreases n,
{
    if n < 10 {
        push_char(text, digit_of(n as u8));
    } else {
        push_decimal(text, n / 10);
        push_char(text, digit_of((n % 10) as u8));
    }
    assert(text@ =~= old(text)@ + decimal_text(n as nat));
}

/// A number in decimal.
pub fn decimal(n: u64) -> (text: String)
    ensures
        text@ == decimal_text(n as nat),
{
    let mut text = String::new();
    push_decimal(&mut text, n);
    assert(text@ =~= decimal_text(n as nat));
    text
}

/// A number written in decimal is digits that spell it.
pub proof fn lemma_decimal_round_trip(n: nat)
    ensures
        all_digits(decimal_text(n)),
        digits_value(decimal_text(n)) == n,
    decreases n,
{
    let text = decimal_text(n);
    if n < 10 {
        assert(text.drop_last() =~= Seq::<char>::empty());
        assert(digits_value(text.drop_last()) == 0);
        assert(text.last() == digit_char(n as int));
    } else {
        lemma_decimal_round_trip(n / 10);
        assert(text.drop_last() =~= decimal_text(n / 10));
        assert(text.last() == digit_char((n % 10) as int));
        assert forall|i: int| 0 <= i < text.len() implies is_digit(#[trigger] text[i]) by {
            if i < text.len() - 1 {
                assert(text[i] == decimal_text(n / 10)[i]);
            }
        }
    }
}

/// Zeros in front of a text, up to a width.
pub open spec fn zero_padded(text: Text, width: int) -> Text {
    if text.len() < width {
        Seq::new((width - text.len()) as nat, |i: int| '0') + text
    } else {
        text
    }
}

/// A number in decimal, filled with zeros to a width, the sign counted.
pub open spec fn fixed_text(n: int, width: int) -> Text {
    if n < 0 {
        seq!['-'] + zero_padded(decimal_text((-n) as nat), width - 1)
    } else {
        zero_padded(decimal_text(n as nat), width)
    }
}

/// Appends a number in decimal, filled with zeros to a width.
pub fn push_fixed(text: &mut String, n: i64, width: usize)
    requires
        n > i64::MIN,
        width > 0,
    ensures
        final(text)@ == old(text)@ + fixed_text(n as int, width as int),
{
    let ghost before = text@;
    let mut fill: usize = width;
    let value: u64 = if n < 0 {
        push_char(text, '-');
        fill = width - 1;
        (-n) as u64
    } else {
        n as u64
    };
    let ghost head = text@;
    let digits = chars_of(decimal(value).as_str());
    let mut written: usize = digits.len();
    while written < fill
        invariant
            digits.len() <= written,
            digits.len() <= fill ==> written <= fill,
            digits.len() > fill ==> written == digits.len(),
            text@ =~= head + Seq::new((written - digits.len()) as nat, |i: int| '0'),
        decreases fill - written,
    {
        push_char(text, '0');
        written = written + 1;
    }
    append_chars(text, digits.as_slice());
    proof {
        assert(text@ =~= head + zero_padded(digits@, fill as int));
        assert(text@ =~= before + fixed_text(n as int, width as int));
    }
}

} // verus!

//! # Text
//!
//! The order and the equality of strings, read through their characters.
//! Strings order by the bytes that encode them, as the standard library
//! orders them.

use crate::list::copy_list;
use vstd::prelude::*;
use vstd::string::*;
use vstd::utf8::*;

verus! {

/// The characters of a string, the model every contract speaks of.
pub type Text = Seq<char>;

/// Whether `a` comes before `b`, byte by byte, a prefix coming first.
pub open spec fn lex_lt(a: Seq<u8>, b: Seq<u8>) -> bool
    decreases a.len(),
{
    if b.len() == 0 {
        false
    } else if a.len() == 0 {
        true
    } else if a[0] == b[0] {
        lex_lt(a.drop_first(), b.drop_first())
    } else {
        a[0] < b[0]
    }
}

/// Whether string `a` orders before string `b`.
pub open spec fn text_lt(a: Text, b: Text) -> bool {
    lex_lt(encode_utf8(a), encode_utf8(b))
}

proof fn lemma_lex_irreflexive(a: Seq<u8>)
    ensures
        !lex_lt(a, a),
    decreases a.len(),
{
    if a.len() > 0 {
        lemma_lex_irreflexive(a.drop_first());
    }
}

proof fn lemma_lex_transitive(a: Seq<u8>, b: Seq<u8>, c: Seq<u8>)
    requires
        lex_lt(a, b),
        lex_lt(b, c),
    ensures
        lex_lt(a, c),
    decreases a.len(),
{
    if a.len() > 0 && a[0] == b[0] && b[0] == c[0] {
        lemma_lex_transitive(a.drop_first(), b.drop_first(), c.drop_first());
    }
}

proof fn lemma_lex_total(a: Seq<u8>, b: Seq<u8>)
    ensures
        lex_lt(a, b) || lex_lt(b, a) || a == b,
    decreases a.len(),
{
    if a.len() > 0 && b.len() > 0 {
        if a[0] == b[0] {
            lemma_lex_total(a.drop_first(), b.drop_first());
            if a.drop_first() == b.drop_first() {
                assert(a =~= seq![a[0]] + a.drop_first());
                assert(b =~= seq![b[0]] + b.drop_first());
            }
        }
    } else if a.len() == 0 && b.len() == 0 {
        assert(a =~= b);
    }
}

/// No string orders before itself.
pub proof fn lemma_text_irreflexive(a: Text)
    ensures
        !text_lt(a, a),
{
    lemma_lex_irreflexive(encode_utf8(a));
}

/// The order of strings is transitive.
pub proof fn lemma_text_transitive(a: Text, b: Text, c: Text)
    requires
        text_lt(a, b),
        text_lt(b, c),
    ensures
        text_lt(a, c),
{
    lemma_lex_transitive(encode_utf8(a), encode_utf8(b), encode_utf8(c));
}

/// Two strings with the same bytes are the same string.
pub proof fn lemma_text_bytes_injective(a: Text, b: Text)
    requires
        encode_utf8(a) == encode_utf8(b),
    ensures
        a == b,
{
    encode_utf8_decode_utf8(a);
    encode_utf8_decode_utf8(b);
}

/// Any two strings are ordered, or are the same.
pub proof fn lemma_text_total(a: Text, b: Text)
    ensures
        text_lt(a, b) || text_lt(b, a) || a == b,
{
    lemma_lex_total(encode_utf8(a), encode_utf8(b));
    if encode_utf8(a) == encode_utf8(b) {
        lemma_text_bytes_injective(a, b);
    }
}

/// Where the first bytes agree, the order is that of the rest.
proof fn lemma_lex_skip(a: Seq<u8>, b: Seq<u8>, k: int)
    requires
        0 <= k <= a.len(),
        k <= b.len(),
        a.take(k) == b.take(k),
    ensures
        lex_lt(a, b) == lex_lt(a.skip(k), b.skip(k)),
    decreases k,
{
    if k == 0 {
        assert(a.skip(0) =~= a);
        assert(b.skip(0) =~= b);
    } else {
        assert(a[0] == a.take(k)[0]);
        assert(b[0] == b.take(k)[0]);
        let x = a.drop_first();
        let y = b.drop_first();
        assert forall|i: int| 0 <= i < k - 1 implies #[trigger] x.take(k - 1)[i] == y.take(k - 1)[i] by {
            assert(x.take(k - 1)[i] == a.take(k)[i + 1]);
            assert(y.take(k - 1)[i] == b.take(k)[i + 1]);
        }
        assert(x.take(k - 1) =~= y.take(k - 1));
        lemma_lex_skip(x, y, k - 1);
        assert(x.skip(k - 1) =~= a.skip(k));
        assert(y.skip(k - 1) =~= b.skip(k));
    }
}

/// Two ASCII texts order as the first characters they differ in.
pub proof fn lemma_ascii_order(a: Text, b: Text, k: int)
    requires
        is_ascii_chars(a),
        is_ascii_chars(b),
        0 <= k < a.len(),
        k < b.len(),
        a.take(k) == b.take(k),
        a[k] < b[k],
    ensures
        text_lt(a, b),
{
    is_ascii_chars_encode_utf8(a);
    is_ascii_chars_encode_utf8(b);
    let x = encode_utf8(a);
    let y = encode_utf8(b);
    assert forall|i: int| 0 <= i < k implies #[trigger] x.take(k)[i] == y.take(k)[i] by {
        assert(a.take(k)[i] == a[i] && b.take(k)[i] == b[i]);
        assert(a[i] as u8 == x[i]);
        assert(b[i] as u8 == y[i]);
    }
    assert(x.take(k) =~= y.take(k));
    lemma_lex_skip(x, y, k);
    assert(x.skip(k)[0] == a[k] as u8);
    assert(y.skip(k)[0] == b[k] as u8);
    assert('\0' <= a[k] <= '\u{7f}');
    assert('\0' <= b[k] <= '\u{7f}');
}

/// Whether `a` orders before `b`.
pub fn text_before(a: &str, b: &str) -> (before: bool)
    ensures
        before == text_lt(a@, b@),
{
    let x: &[u8] = a.as_bytes();
    let y: &[u8] = b.as_bytes();
    let mut i: usize = 0;
    while i < x.len() && i < y.len() && x[i] == y[i]
        invariant
            i <= x.len(),
            i <= y.len(),
            x@.take(i as int) =~= y@.take(i as int),
        decreases x.len() - i,
    {
        i = i + 1;
    }
    proof {
        lemma_lex_skip(x@, y@, i as int);
    }
    if i >= y.len() {
        false
    } else if i >= x.len() {
        true
    } else {
        x[i] < y[i]
    }
}

/// Whether two strings hold the same characters.
pub fn text_same(a: &str, b: &str) -> (same: bool)
    ensures
        same == (a@ == b@),
{
    let x: &[u8] = a.as_bytes();
    let y: &[u8] = b.as_bytes();
    if x.len() != y.len() {
        return false;
    }
    let mut i: usize = 0;
    while i < x.len()
        invariant
            i <= x.len(),
            x.len() == y.len(),
            forall|j: int| 0 <= j < i ==> x@[j] == y@[j],
            x@ == encode_utf8(a@),
            y@ == encode_utf8(b@),
        decreases x.len() - i,
    {
        if x[i] != y[i] {
            return false;
        }
        i = i + 1;
    }
    proof {
        assert(x@ =~= y@);
        lemma_text_bytes_injective(a@, b@);
    }
    true
}

/// Whether two optional strings say the same.
pub fn same_option(a: &Option<String>, b: &Option<String>) -> (same: bool)
    ensures
        same == (a.deep_view() == b.deep_view()),
{
    match (a, b) {
        (Some(a), Some(b)) => *a == *b,
        (None, None) => true,
        _ => false,
    }
}

/// Copies a list of strings.
pub fn clone_texts(texts: &Vec<String>) -> (copy: Vec<String>)
    ensures
        copy.deep_view() == texts.deep_view(),
{
    copy_list(texts)
}

/// Copies a list of bytes.
pub fn clone_bytes(bytes: &Vec<u8>) -> (copy: Vec<u8>)
    ensures
        copy@ == bytes@,
        copy.deep_view() == bytes@,
{
    let copy = bytes.clone();
    assert(copy@ =~= bytes@);
    assert(copy.deep_view() =~= bytes@);
    copy
}

/// Appends one character, by `String::push`: the string then ends in it
/// and holds what it held before it.
#[verifier::external_body]
pub(crate) fn push_char(text: &mut String, c: char)
    ensures
        final(text)@ == old(text)@.push(c),
{
    text.push(c)
}

} // verus!

//! # Contact summaries
//!
//! The `text/vcard` derivation: the `UID` as the key, the `FN`, `KIND` and
//! first `ORG` component unescaped, every `EMAIL` canonical, and the name
//! lowercased for ordering.

use crate::list::push_to;
use crate::placement::PimdirSortKey;
use crate::scan::{
    chars_of, cut_once, lower_char, lowercase, pieces, rfind, rfind_char, split_once, text_of,
    to_lower, to_upper, trim, trimmed, unwrap_char, unwrapped, uppercase,
};
use crate::summary::{
    borrowed, canonical_address, clone_addresses, hinted_key, key_or_hash, unfold, unfolded,
    AddressView, DerivationView, PimdirAddress, PimdirDerivation, PimdirSummary, SummaryView,
};
use crate::text::{push_char, text_same, Text};
use vstd::prelude::*;
use vstd::slice::*;
use vstd::string::*;
use vstd::utf8::*;

verus! {

/// The summary row of a card with the emails it carries.
#[derive(Debug, PartialEq, Eq)]
pub struct PimdirContactSummary {
    /// The `UID` verbatim.
    pub uid: Option<String>,
    /// The `FN`, unescaped; empty when absent.
    pub full_name: String,
    /// The `KIND` lowercased: `individual`, `group`, `org` or `location`.
    pub kind: Option<String>,
    /// The first component of the first `ORG`, unescaped.
    pub org: Option<String>,
    /// Every `EMAIL`, canonical, in document order.
    pub emails: Vec<PimdirAddress>,
}

/// What a [`PimdirContactSummary`] says, by value.
#[verifier::ext_equal]
pub struct ContactSummaryView {
    pub uid: Option<Text>,
    pub full_name: Text,
    pub kind: Option<Text>,
    pub org: Option<Text>,
    pub emails: Seq<AddressView>,
}

impl View for PimdirContactSummary {
    type V = ContactSummaryView;

    open spec fn view(&self) -> ContactSummaryView {
        ContactSummaryView {
            uid: self.uid.deep_view(),
            full_name: self.full_name@,
            kind: self.kind.deep_view(),
            org: self.org.deep_view(),
            emails: self.emails.deep_view(),
        }
    }
}

impl DeepView for PimdirContactSummary {
    type V = ContactSummaryView;

    open spec fn deep_view(&self) -> ContactSummaryView {
        self@
    }
}

impl Clone for PimdirContactSummary {
    fn clone(&self) -> (copy: Self)
        ensures
            copy@ == self@,
    {
        PimdirContactSummary {
            uid: self.uid.clone(),
            full_name: self.full_name.clone(),
            kind: self.kind.clone(),
            org: self.org.clone(),
            emails: clone_addresses(&self.emails),
        }
    }
}

impl Default for PimdirContactSummary {
    fn default() -> (made: Self)
        ensures
            made@ == (ContactSummaryView {
                uid: None,
                full_name: Text::empty(),
                kind: None,
                org: None,
                emails: Seq::<AddressView>::empty(),
            }),
    {
        PimdirContactSummary {
            uid: None,
            full_name: String::new(),
            kind: None,
            org: None,
            emails: Vec::new(),
        }
    }
}

/// The characters a character maps to in lower case.
pub uninterp spec fn lower_mapping(c: char) -> Seq<char>;

/// The characters a character maps to in lower case, by
/// `char::to_lowercase`: a function of the character alone, at least one,
/// and the ASCII mapping of an ASCII character.
#[verifier::external_body]
fn lower_of(c: char) -> (text: String)
    ensures
        text@ == lower_mapping(c),
        text@.len() >= 1,
        c < '\u{80}' ==> text@ == seq![lower_char(c)],
{
    c.to_lowercase().to_string()
}

/// The one character a character maps to in lower case. The mapping of a
/// character that takes several starts with it.
pub open spec fn simple_lower(c: char) -> char {
    lower_mapping(c)[0]
}

/// A text lowercased character by character.
pub open spec fn simply_lowered(text: Text) -> Text {
    text.map_values(|c: char| simple_lower(c))
}

/// A text lowercased character by character.
fn lower_simply(text: &str) -> (lower: Vec<char>)
    ensures
        lower@ == simply_lowered(text@),
{
    let chars = chars_of(text);
    let mut lower: Vec<char> = Vec::new();
    let mut i: usize = 0;
    while i < chars.len()
        invariant
            i <= chars.len(),
            lower@ =~= simply_lowered(chars@.take(i as int)),
        decreases chars.len() - i,
    {
        let mapped = lower_of(chars[i]);
        lower.push(mapped.as_str().get_char(0));
        i = i + 1;
    }
    assert(chars@.take(i as int) =~= chars@);
    lower
}

impl ContactSummaryView {
    /// The ordering key of a card.
    pub open spec fn sort_key(self) -> Text {
        trim(simply_lowered(self.full_name))
    }
}

impl PimdirContactSummary {
    /// The name lowercased by the Unicode simple mapping, then trimmed;
    /// read ascending, a nameless card first.
    pub fn sort_key(&self) -> (key: PimdirSortKey)
        ensures
            key@ == self@.sort_key(),
    {
        let lower = lower_simply(self.full_name.as_str());
        PimdirSortKey(text_of(trimmed(lower.as_slice())))
    }
}

/// One vCard or iCalendar content line:
/// `[group "."] name *(";" param) ":" value`.
///
/// Split on the first colon outside a quoted parameter value (RFC 6350
/// 3.3), the group dropped, the parameter names uppercased and their
/// values unquoted.
#[derive(Debug, PartialEq, Eq)]
pub struct PimdirContentLine {
    /// The property name, uppercased.
    pub name: String,
    /// The parameters, names uppercased, values unquoted.
    pub params: Vec<(String, String)>,
    /// The value, verbatim.
    pub value: String,
}

/// What a [`PimdirContentLine`] says, by value.
#[verifier::ext_equal]
pub struct ContentLineView {
    pub name: Text,
    pub params: Seq<(Text, Text)>,
    pub value: Text,
}

impl View for PimdirContentLine {
    type V = ContentLineView;

    open spec fn view(&self) -> ContentLineView {
        ContentLineView {
            name: self.name@,
            params: self.params.deep_view(),
            value: self.value@,
        }
    }
}

impl DeepView for PimdirContentLine {
    type V = ContentLineView;

    open spec fn deep_view(&self) -> ContentLineView {
        self@
    }
}

/// Where a character first stands outside double quotes, or the length
/// where it does not.
pub open spec fn find_unquoted(text: Text, c: char, quoted: bool) -> int
    decreases text.len(),
{
    if text.len() == 0 {
        0
    } else if text[0] == '"' {
        1 + find_unquoted(text.drop_first(), c, !quoted)
    } else if text[0] == c && !quoted {
        0
    } else {
        1 + find_unquoted(text.drop_first(), c, quoted)
    }
}

proof fn lemma_find_unquoted(text: Text, c: char, quoted: bool)
    ensures
        0 <= find_unquoted(text, c, quoted) <= text.len(),
    decreases text.len(),
{
    if text.len() > 0 {
        lemma_find_unquoted(text.drop_first(), c, !quoted);
        lemma_find_unquoted(text.drop_first(), c, quoted);
    }
}

/// Where a character first stands outside double quotes.
fn unquoted_at(text: &[char], c: char) -> (at: usize)
    ensures
        at == find_unquoted(text@, c, false),
        at <= text.len(),
{
    let mut quoted = false;
    let mut i: usize = 0;
    assert(text@.skip(0) =~= text@);
    while i < text.len()
        invariant
            i <= text.len(),
            find_unquoted(text@, c, false) == i + find_unquoted(text@.skip(i as int), c, quoted),
        decreases text.len() - i,
    {
        proof {
            assert(text@.skip(i as int)[0] == text@[i as int]);
            assert(text@.skip(i as int).drop_first() =~= text@.skip(i + 1));
        }
        if text[i] == '"' {
            quoted = !quoted;
        } else if text[i] == c && !quoted {
            return i;
        }
        i = i + 1;
    }
    i
}

/// The pieces between such characters outside double quotes.
pub open spec fn split_outside_quotes(text: Text, c: char) -> Seq<Text>
    decreases text.len(),
{
    let at = find_unquoted(text, c, false);
    if 0 <= at < text.len() {
        seq![text.take(at)] + split_outside_quotes(text.skip(at + 1), c)
    } else {
        seq![text]
    }
}

/// Splits on a separator outside double quotes.
fn split_unquoted<'a>(text: &'a [char], separator: char) -> (parts: Vec<&'a [char]>)
    ensures
        pieces(parts@) == split_outside_quotes(text@, separator),
        parts@.len() > 0,
{
    let mut parts: Vec<&'a [char]> = Vec::new();
    let mut from: usize = 0;
    assert(text@.skip(0) =~= text@);
    assert(pieces(parts@) + split_outside_quotes(text@, separator) =~= split_outside_quotes(
        text@,
        separator,
    ));
    loop
        invariant_except_break
            from <= text.len(),
            pieces(parts@) + split_outside_quotes(text@.skip(from as int), separator)
                =~= split_outside_quotes(text@, separator),
        ensures
            pieces(parts@) == split_outside_quotes(text@, separator),
            parts@.len() > 0,
        decreases text.len() - from,
    {
        let rest = slice_subrange(text, from, text.len());
        assert(rest@ =~= text@.skip(from as int));
        let at = unquoted_at(rest, separator);
        let ghost before = pieces(parts@);
        if at < rest.len() {
            let part = slice_subrange(rest, 0, at);
            parts.push(part);
            proof {
                assert(part@ =~= rest@.take(at as int));
                assert(rest@.skip(at + 1) =~= text@.skip(from + at + 1));
                assert(pieces(parts@) =~= before.push(part@));
            }
            from = from + at + 1;
        } else {
            parts.push(rest);
            assert(pieces(parts@) =~= before.push(rest@));
            break;
        }
    }
    parts
}

/// What follows the last such character, the whole text where there is
/// none.
pub open spec fn after_last(text: Text, c: char) -> Text {
    match rfind_char(text, c) {
        Some(at) => text.skip(at + 1),
        None => text,
    }
}

/// A parameter, its name uppercased and its value unquoted.
pub open spec fn param_of(part: Text) -> Option<(Text, Text)> {
    match cut_once(part, '=') {
        Some((name, value)) => Some((uppercase(trim(name)), unwrap_char(trim(value), '"'))),
        None => None,
    }
}

/// The parameters of a line's head, in order.
pub open spec fn params_of(parts: Seq<Text>) -> Seq<(Text, Text)>
    decreases parts.len(),
{
    if parts.len() == 0 {
        Seq::empty()
    } else {
        match param_of(parts.last()) {
            Some(param) => params_of(parts.drop_last()).push(param),
            None => params_of(parts.drop_last()),
        }
    }
}

/// The content line a text spells.
pub open spec fn content_line(line: Text) -> Option<ContentLineView> {
    let colon = find_unquoted(line, ':', false);
    if colon < line.len() {
        let parts = split_outside_quotes(line.take(colon), ';');
        Some(
            ContentLineView {
                name: uppercase(trim(after_last(parts[0], '.'))),
                params: params_of(parts.skip(1)),
                value: line.skip(colon + 1),
            },
        )
    } else {
        None
    }
}

/// The first value under a name.
pub open spec fn first_value(pairs: Seq<(Text, Text)>, name: Text) -> Option<Text>
    decreases pairs.len(),
{
    if pairs.len() == 0 {
        None
    } else if pairs[0].0 == name {
        Some(pairs[0].1)
    } else {
        first_value(pairs.drop_first(), name)
    }
}

/// The first value under a name.
pub fn first_value_of<'a>(pairs: &'a Vec<(String, String)>, name: &str) -> (value: Option<&'a str>)
    ensures
        borrowed(value) == first_value(pairs.deep_view(), name@),
{
    let ghost all = pairs.deep_view();
    let mut i: usize = 0;
    assert(all.skip(0) =~= all);
    while i < pairs.len()
        invariant
            i <= pairs.len(),
            all == pairs.deep_view(),
            first_value(all, name@) == first_value(all.skip(i as int), name@),
        decreases pairs.len() - i,
    {
        proof {
            assert(all.skip(i as int)[0] == all[i as int]);
            assert(all.skip(i as int).drop_first() =~= all.skip(i + 1));
        }
        if text_same(pairs[i].0.as_str(), name) {
            return Some(pairs[i].1.as_str());
        }
        i = i + 1;
    }
    None
}

impl PimdirContentLine {
    /// Reads a line, or `None` for one carrying no colon outside quotes.
    pub fn parse(line: &str) -> (parsed: Option<Self>)
        ensures
            parsed.deep_view() == content_line(line@),
    {
        let chars = chars_of(line);
        let chars = chars.as_slice();
        let colon = unquoted_at(chars, ':');
        if colon >= chars.len() {
            return None;
        }
        let head = slice_subrange(chars, 0, colon);
        let value = slice_subrange(chars, colon + 1, chars.len());
        proof {
            assert(head@ =~= line@.take(colon as int));
            assert(value@ =~= line@.skip(colon + 1));
        }
        let parts = split_unquoted(head, ';');
        let ghost all = pieces(parts@);
        let first = parts[0];
        assert(first@ == all[0]);
        let name = match rfind(first, '.') {
            Some(at) => {
                let rest = slice_subrange(first, at + 1, first.len());
                assert(rest@ =~= first@.skip(at + 1));
                rest
            },
            None => first,
        };
        let name = to_upper(text_of(trimmed(name)).as_str());
        let mut params: Vec<(String, String)> = Vec::new();
        let mut i: usize = 1;
        assert(params.deep_view() =~= params_of(all.skip(1).take(0)));
        while i < parts.len()
            invariant
                1 <= i <= parts.len(),
                all == pieces(parts@),
                params.deep_view() == params_of(all.skip(1).take(i - 1)),
            decreases parts.len() - i,
        {
            let part = parts[i];
            proof {
                assert(all.skip(1).take(i as int).drop_last() =~= all.skip(1).take(i - 1));
                assert(all.skip(1).take(i as int).last() == part@);
            }
            if let Some((name, value)) = split_once(part, '=') {
                let name = to_upper(text_of(trimmed(name)).as_str());
                let value = text_of(unwrapped(trimmed(value), '"'));
                push_to(&mut params, (name, value));
            }
            i = i + 1;
        }
        assert(all.skip(1).take(i - 1) =~= all.skip(1));
        Some(PimdirContentLine { name, params, value: text_of(value) })
    }

    /// Whether the line carries the named property.
    pub fn is(&self, name: &str) -> (yes: bool)
        ensures
            yes == (self@.name == name@),
    {
        text_same(self.name.as_str(), name)
    }

    /// A parameter's value, by uppercased name.
    pub fn param(&self, name: &str) -> (value: Option<&str>)
        ensures
            borrowed(value) == first_value(self@.params, name@),
    {
        first_value_of(&self.params, name)
    }
}

/// Where a semicolon no backslash escapes first stands, or the length.
pub open spec fn find_unescaped(text: Text) -> int
    decreases text.len(),
{
    if text.len() == 0 {
        0
    } else if text[0] == '\\' {
        if text.len() == 1 {
            1
        } else {
            2 + find_unescaped(text.skip(2))
        }
    } else if text[0] == ';' {
        0
    } else {
        1 + find_unescaped(text.drop_first())
    }
}

/// The components of a structured value.
pub open spec fn components_of(value: Text) -> Seq<Text>
    decreases value.len(),
{
    let at = find_unescaped(value);
    if 0 <= at < value.len() {
        seq![value.take(at)] + components_of(value.skip(at + 1))
    } else {
        seq![value]
    }
}

/// Where a semicolon no backslash escapes first stands.
fn unescaped_at(text: &[char]) -> (at: usize)
    ensures
        at == find_unescaped(text@),
        at <= text.len(),
{
    let mut i: usize = 0;
    assert(text@.skip(0) =~= text@);
    while i < text.len()
        invariant
            i <= text.len(),
            find_unescaped(text@) == i + find_unescaped(text@.skip(i as int)),
        decreases text.len() - i,
    {
        let ghost rest = text@.skip(i as int);
        proof {
            assert(rest[0] == text@[i as int]);
            assert(rest.drop_first() =~= text@.skip(i + 1));
        }
        if text[i] == '\\' {
            if i + 1 == text.len() {
                return i + 1;
            }
            assert(rest.skip(2) =~= text@.skip(i + 2));
            i = i + 2;
        } else if text[i] == ';' {
            return i;
        } else {
            i = i + 1;
        }
    }
    i
}

/// A structured value's components, split on the semicolons no backslash
/// escapes (RFC 6350 3.3).
pub fn components(value: &str) -> (parts: Vec<String>)
    ensures
        parts.deep_view() == components_of(value@),
        parts@.len() > 0,
{
    let chars = chars_of(value);
    let text = chars.as_slice();
    let mut parts: Vec<String> = Vec::new();
    let mut from: usize = 0;
    assert(text@.skip(0) =~= text@);
    assert(parts.deep_view() + components_of(text@) =~= components_of(text@));
    loop
        invariant_except_break
            from <= text.len(),
            parts.deep_view() + components_of(text@.skip(from as int)) =~= components_of(text@),
        ensures
            parts.deep_view() == components_of(text@),
            parts@.len() > 0,
        decreases text.len() - from,
    {
        let rest = slice_subrange(text, from, text.len());
        assert(rest@ =~= text@.skip(from as int));
        let at = unescaped_at(rest);
        let ghost before = parts.deep_view();
        if at < rest.len() {
            let part = slice_subrange(rest, 0, at);
            push_to(&mut parts, text_of(part));
            proof {
                assert(part@ =~= rest@.take(at as int));
                assert(rest@.skip(at + 1) =~= text@.skip(from + at + 1));
                assert(parts.deep_view() + components_of(text@.skip(from + at + 1)) =~= before
                    + components_of(rest@));
            }
            from = from + at + 1;
        } else {
            push_to(&mut parts, text_of(rest));
            break;
        }
    }
    parts
}

/// A text value unescaped.
pub open spec fn unescaped(value: Text) -> Text
    decreases value.len(),
{
    if value.len() == 0 {
        value
    } else if value[0] == '\\' {
        if value.len() == 1 {
            Text::empty()
        } else {
            seq![
                if value[1] == 'n' || value[1] == 'N' {
                    '\n'
                } else {
                    value[1]
                },
            ] + unescaped(value.skip(2))
        }
    } else {
        seq![value[0]] + unescaped(value.drop_first())
    }
}

/// A text value unescaped (RFC 6350 3.4, RFC 5545 3.3.11): `\n` a newline,
/// `\,` `\;` `\\` the character itself.
pub fn unescape(value: &str) -> (out: String)
    ensures
        out@ == unescaped(value@),
{
    let text = chars_of(value);
    let mut out = String::new();
    let mut i: usize = 0;
    assert(text@.skip(0) =~= text@);
    assert(out@ + unescaped(text@) =~= unescaped(text@));
    while i < text.len()
        invariant
            i <= text.len(),
            text@ == value@,
            out@ + unescaped(text@.skip(i as int)) == unescaped(text@),
        decreases text.len() - i,
    {
        let ghost rest = text@.skip(i as int);
        let ghost before = out@;
        proof {
            assert(rest[0] == text@[i as int]);
            assert(rest.drop_first() =~= text@.skip(i + 1));
        }
        if text[i] == '\\' {
            if i + 1 == text.len() {
                assert(unescaped(rest) == Text::empty());
                assert(out@ + unescaped(rest) =~= out@);
                return out;
            }
            assert(rest[1] == text@[i + 1]);
            assert(rest.skip(2) =~= text@.skip(i + 2));
            let c = if text[i + 1] == 'n' || text[i + 1] == 'N' {
                '\n'
            } else {
                text[i + 1]
            };
            push_char(&mut out, c);
            assert(out@ + unescaped(text@.skip(i + 2)) =~= before + unescaped(rest));
            i = i + 2;
        } else {
            push_char(&mut out, text[i]);
            assert(out@ + unescaped(text@.skip(i + 1)) =~= before + unescaped(rest));
            i = i + 1;
        }
    }
    assert(out@ + unescaped(text@.skip(i as int)) =~= out@);
    out
}

/// A text value with the characters the escapes stand for escaped.
pub open spec fn escaped(text: Text) -> Text
    decreases text.len(),
{
    if text.len() == 0 {
        text
    } else {
        (if text[0] == '\n' {
            seq!['\\', 'n']
        } else if text[0] == '\\' || text[0] == ',' || text[0] == ';' {
            seq!['\\', text[0]]
        } else {
            seq![text[0]]
        }) + escaped(text.drop_first())
    }
}

/// Unescaping gives back what was escaped.
pub proof fn lemma_unescape_undoes_escape(text: Text)
    ensures
        unescaped(escaped(text)) == text,
    decreases text.len(),
{
    if text.len() > 0 {
        lemma_unescape_undoes_escape(text.drop_first());
        let rest = escaped(text.drop_first());
        let all = escaped(text);
        if text[0] == '\n' || text[0] == '\\' || text[0] == ',' || text[0] == ';' {
            assert(all.skip(2) =~= rest);
        } else {
            assert(all.drop_first() =~= rest);
        }
        assert(unescaped(all) =~= seq![text[0]] + text.drop_first());
        assert(seq![text[0]] + text.drop_first() =~= text);
    }
}

/// The content lines among logical lines.
pub open spec fn content_lines(lines: Seq<Text>) -> Seq<ContentLineView>
    decreases lines.len(),
{
    if lines.len() == 0 {
        Seq::empty()
    } else {
        match content_line(lines.last()) {
            Some(line) => content_lines(lines.drop_last()).push(line),
            None => content_lines(lines.drop_last()),
        }
    }
}

/// Reads the content lines among logical lines.
pub fn read_lines(lines: &Vec<String>) -> (out: Vec<PimdirContentLine>)
    ensures
        out.deep_view() == content_lines(lines.deep_view()),
{
    let ghost all = lines.deep_view();
    let mut out: Vec<PimdirContentLine> = Vec::new();
    let mut i: usize = 0;
    assert(out.deep_view() =~= content_lines(all.take(0)));
    while i < lines.len()
        invariant
            i <= lines.len(),
            all == lines.deep_view(),
            out.deep_view() == content_lines(all.take(i as int)),
        decreases lines.len() - i,
    {
        proof {
            assert(all.take(i + 1).drop_last() =~= all.take(i as int));
            assert(all.take(i + 1).last() == lines@[i as int]@);
        }
        if let Some(line) = PimdirContentLine::parse(lines[i].as_str()) {
            push_to(&mut out, line);
        }
        i = i + 1;
    }
    assert(all.take(i as int) =~= all);
    out
}

/// The first line carrying a property.
pub open spec fn first_line(lines: Seq<ContentLineView>, name: Text) -> Option<ContentLineView>
    decreases lines.len(),
{
    if lines.len() == 0 {
        None
    } else if lines[0].name == name {
        Some(lines[0])
    } else {
        first_line(lines.drop_first(), name)
    }
}

/// What a borrowed line says.
pub open spec fn line_view(line: Option<&PimdirContentLine>) -> Option<ContentLineView> {
    match line {
        Some(line) => Some(line@),
        None => None,
    }
}

/// The first line carrying a property.
pub fn first_line_of<'a>(lines: &'a Vec<PimdirContentLine>, name: &str) -> (line: Option<
    &'a PimdirContentLine,
>)
    ensures
        line_view(line) == first_line(lines.deep_view(), name@),
{
    let ghost all = lines.deep_view();
    let mut i: usize = 0;
    assert(all.skip(0) =~= all);
    while i < lines.len()
        invariant
            i <= lines.len(),
            all == lines.deep_view(),
            first_line(all, name@) == first_line(all.skip(i as int), name@),
        decreases lines.len() - i,
    {
        proof {
            assert(all.skip(i as int)[0] == all[i as int]);
            assert(all.skip(i as int).drop_first() =~= all.skip(i + 1));
        }
        if lines[i].is(name) {
            return Some(&lines[i]);
        }
        i = i + 1;
    }
    None
}

/// The value of the first line carrying a property.
pub open spec fn first_line_value(lines: Seq<ContentLineView>, name: Text) -> Option<Text> {
    match first_line(lines, name) {
        Some(line) => Some(line.value),
        None => None,
    }
}

/// The value of the first line carrying a property, copied.
pub fn value_of(lines: &Vec<PimdirContentLine>, name: &str) -> (value: Option<String>)
    ensures
        value.deep_view() == first_line_value(lines.deep_view(), name@),
{
    match first_line_of(lines, name) {
        Some(line) => Some(line.value.clone()),
        None => None,
    }
}

/// An optional text unescaped.
pub open spec fn unescaped_option(value: Option<Text>) -> Option<Text> {
    match value {
        Some(value) => Some(unescaped(value)),
        None => None,
    }
}

/// A text, empty where there is none.
pub open spec fn or_empty(value: Option<Text>) -> Text {
    match value {
        Some(value) => value,
        None => Text::empty(),
    }
}

/// The addresses of the `EMAIL` lines, in document order.
pub open spec fn emails_of(lines: Seq<ContentLineView>) -> Seq<AddressView>
    decreases lines.len(),
{
    if lines.len() == 0 {
        Seq::empty()
    } else if lines.last().name == "EMAIL"@ {
        emails_of(lines.drop_last()).push(
            AddressView { address: canonical_address(lines.last().value), name: None },
        )
    } else {
        emails_of(lines.drop_last())
    }
}

/// The summary of a card's content lines.
pub open spec fn contact_summary(lines: Seq<ContentLineView>) -> ContactSummaryView {
    ContactSummaryView {
        uid: first_line_value(lines, "UID"@),
        full_name: or_empty(unescaped_option(first_line_value(lines, "FN"@))),
        kind: match first_line_value(lines, "KIND"@) {
            Some(kind) => Some(lowercase(trim(kind))),
            None => None,
        },
        org: match first_line_value(lines, "ORG"@) {
            Some(org) => Some(unescaped(components_of(org)[0])),
            None => None,
        },
        emails: emails_of(lines),
    }
}

/// What a card derives to.
pub open spec fn contact_derivation(body: Seq<u8>) -> DerivationView {
    let summary = contact_summary(content_lines(unfolded(body, false)));
    DerivationView {
        link_id: hinted_key(summary.uid, body),
        summary: Some(SummaryView::Contact(summary)),
        sort_key: summary.sort_key(),
    }
}

/// Reads the summary of a card's content lines.
fn summarize(lines: &Vec<PimdirContentLine>) -> (summary: PimdirContactSummary)
    ensures
        summary@ == contact_summary(lines.deep_view()),
{
    let ghost all = lines.deep_view();
    let mut emails: Vec<PimdirAddress> = Vec::new();
    let mut i: usize = 0;
    assert(emails.deep_view() =~= emails_of(all.take(0)));
    while i < lines.len()
        invariant
            i <= lines.len(),
            all == lines.deep_view(),
            emails.deep_view() == emails_of(all.take(i as int)),
        decreases lines.len() - i,
    {
        proof {
            assert(all.take(i + 1).drop_last() =~= all.take(i as int));
            assert(all.take(i + 1).last() == lines@[i as int]@);
        }
        if lines[i].is("EMAIL") {
            let address = PimdirAddress::canonical(lines[i].value.as_str());
            push_to(&mut emails, PimdirAddress { address, name: None });
        }
        i = i + 1;
    }
    assert(all.take(i as int) =~= all);
    PimdirContactSummary {
        uid: value_of(lines, "UID"),
        full_name: match first_line_of(lines, "FN") {
            Some(line) => unescape(line.value.as_str()),
            None => String::new(),
        },
        kind: match first_line_of(lines, "KIND") {
            Some(line) => {
                let value = chars_of(line.value.as_str());
                Some(to_lower(text_of(trimmed(value.as_slice())).as_str()))
            },
            None => None,
        },
        org: match first_line_of(lines, "ORG") {
            Some(line) => {
                let parts = components(line.value.as_str());
                assert(parts@[0]@ == parts.deep_view()[0]);
                Some(unescape(parts[0].as_str()))
            },
            None => None,
        },
        emails,
    }
}

/// Derives a card's key, summary and sort key from its bytes.
pub fn derive(body: &[u8]) -> (derivation: PimdirDerivation)
    ensures
        derivation@ == contact_derivation(body@),
{
    let lines = read_lines(&unfold(body, false));
    let summary = summarize(&lines);
    PimdirDerivation {
        link_id: key_or_hash(&summary.uid, body),
        sort_key: summary.sort_key(),
        summary: Some(PimdirSummary::Contact(summary)),
    }
}

/// The first line carrying a property is the one no other of that name
/// stands before, and there is none only where no line carries it.
pub proof fn lemma_the_first_line_of_a_name(lines: Seq<ContentLineView>, name: Text, i: int)
    requires
        0 <= i <= lines.len(),
        i < lines.len() ==> lines[i].name == name,
        forall|j: int| 0 <= j < i ==> (#[trigger] lines[j]).name != name,
    ensures
        i < lines.len() ==> first_line(lines, name) == Some(lines[i]) && first_line_value(
            lines,
            name,
        ) == Some(lines[i].value),
        i == lines.len() ==> first_line(lines, name) is None && first_line_value(lines, name)
            is None,
    decreases lines.len(),
{
    if i > 0 {
        let rest = lines.drop_first();
        assert(lines[0].name != name);
        assert forall|j: int| 0 <= j < i - 1 implies (#[trigger] rest[j]).name != name by {
            assert(rest[j] == lines[j + 1]);
        }
        lemma_the_first_line_of_a_name(rest, name, i - 1);
    }
}

/// The value under a name is that of the first pair of the name, and
/// there is none only where no pair has it.
pub proof fn lemma_the_first_value_of_a_name(pairs: Seq<(Text, Text)>, name: Text, i: int)
    requires
        0 <= i <= pairs.len(),
        i < pairs.len() ==> pairs[i].0 == name,
        forall|j: int| 0 <= j < i ==> (#[trigger] pairs[j]).0 != name,
    ensures
        i < pairs.len() ==> first_value(pairs, name) == Some(pairs[i].1),
        i == pairs.len() ==> first_value(pairs, name) is None,
    decreases pairs.len(),
{
    if i > 0 {
        let rest = pairs.drop_first();
        assert(pairs[0].0 != name);
        assert forall|j: int| 0 <= j < i - 1 implies (#[trigger] rest[j]).0 != name by {
            assert(rest[j] == pairs[j + 1]);
        }
        lemma_the_first_value_of_a_name(rest, name, i - 1);
    }
}

/// A card's summary tells what the first line of each property says.
pub proof fn lemma_a_card_tells_its_lines(lines: Seq<ContentLineView>, i: int)
    requires
        0 <= i < lines.len(),
        forall|j: int| 0 <= j < i ==> (#[trigger] lines[j]).name != lines[i].name,
    ensures
        lines[i].name == "UID"@ ==> contact_summary(lines).uid == Some(lines[i].value),
        lines[i].name == "FN"@ ==> contact_summary(lines).full_name == unescaped(lines[i].value),
        lines[i].name == "KIND"@ ==> contact_summary(lines).kind == Some(
            lowercase(trim(lines[i].value)),
        ),
        lines[i].name == "ORG"@ ==> contact_summary(lines).org == Some(
            unescaped(lines[i].value.take(find_unescaped(lines[i].value))),
        ),
{
    lemma_the_first_line_of_a_name(lines, lines[i].name, i);
    lemma_find_unescaped(lines[i].value);
    let value = lines[i].value;
    if find_unescaped(value) == value.len() {
        assert(value.take(value.len() as int) =~= value);
    }
}

/// A semicolon no backslash escapes stands where one is found, and there
/// is none before it: each one before stands behind a backslash.
proof fn lemma_find_unescaped(text: Text)
    ensures
        0 <= find_unescaped(text) <= text.len(),
        find_unescaped(text) < text.len() ==> text[find_unescaped(text)] == ';',
        forall|i: int|
            0 <= i < find_unescaped(text) && text[i] == ';' ==> i > 0 && #[trigger] text[i - 1]
                == '\\',
    decreases text.len(),
{
    if text.len() > 0 {
        if text[0] == '\\' {
            if text.len() > 1 {
                let rest = text.skip(2);
                lemma_find_unescaped(rest);
                assert forall|i: int|
                    0 <= i < find_unescaped(text) && text[i] == ';' implies i > 0 && #[trigger] text[i
                    - 1] == '\\' by {
                    if i >= 2 {
                        assert(rest[i - 2] == text[i]);
                        assert(rest[i - 2 - 1] == text[i - 1]);
                    }
                }
            }
        } else if text[0] != ';' {
            let rest = text.drop_first();
            lemma_find_unescaped(rest);
            assert forall|i: int|
                0 <= i < find_unescaped(text) && text[i] == ';' implies i > 0 && #[trigger] text[i
                - 1] == '\\' by {
                if i >= 1 {
                    assert(rest[i - 1] == text[i]);
                    assert(rest[i - 1 - 1] == text[i - 1]);
                }
            }
        }
    }
}

/// What no line of a card carries, its summary does not tell.
pub proof fn lemma_a_card_tells_nothing_else(lines: Seq<ContentLineView>, name: Text)
    requires
        forall|i: int| 0 <= i < lines.len() ==> (#[trigger] lines[i]).name != name,
    ensures
        name == "UID"@ ==> contact_summary(lines).uid is None,
        name == "FN"@ ==> contact_summary(lines).full_name.len() == 0,
        name == "KIND"@ ==> contact_summary(lines).kind is None,
        name == "ORG"@ ==> contact_summary(lines).org is None,
{
    lemma_the_first_line_of_a_name(lines, name, lines.len() as int);
}

/// Every email line of a card is one of its emails, in the order of the
/// lines, and no other line is.
pub proof fn lemma_every_email_is_told(lines: Seq<ContentLineView>, i: int)
    requires
        0 <= i < lines.len(),
    ensures
        emails_of(lines.take(i)).len() <= emails_of(lines).len(),
        lines[i].name == "EMAIL"@ ==> emails_of(lines.take(i)).len() < emails_of(lines).len()
            && emails_of(lines)[emails_of(lines.take(i)).len() as int].address
            == canonical_address(lines[i].value),
        lines[i].name != "EMAIL"@ ==> emails_of(lines.take(i + 1)) == emails_of(lines.take(i)),
    decreases lines.len(),
{
    let rest = lines.drop_last();
    assert(lines.take(i + 1).drop_last() =~= lines.take(i));
    if i == lines.len() - 1 {
        assert(lines.take(i) =~= rest);
    } else {
        assert(rest.take(i) =~= lines.take(i));
        lemma_every_email_is_told(rest, i);
    }
}

/// A line's value starts behind its first colon outside quotes, so a
/// colon a quoted parameter holds ends nothing.
pub proof fn lemma_a_line_splits_on_its_first_bare_colon(head: Text, value: Text)
    requires
        forall|i: int| 0 <= i < head.len() ==> #[trigger] head[i] != ':' && head[i] != '"',
    ensures
        content_line(head) is None,
        content_line(head + seq![':'] + value) matches Some(line) && line.value == value,
{
    let line = head + seq![':'] + value;
    lemma_bare_text_to_a_colon(head, line);
    lemma_bare_text_to_a_colon(head, head);
    assert(line.skip(head.len() as int + 1) =~= value);
}

proof fn lemma_bare_text_to_a_colon(head: Text, line: Text)
    requires
        forall|i: int| 0 <= i < head.len() ==> #[trigger] head[i] != ':' && head[i] != '"',
        head.is_prefix_of(line),
        head.len() < line.len() ==> line[head.len() as int] == ':',
    ensures
        find_unquoted(line, ':', false) == head.len(),
    decreases head.len(),
{
    if head.len() > 0 {
        assert(line[0] == head[0]);
        let rest = head.drop_first();
        assert forall|i: int| 0 <= i < rest.len() implies #[trigger] rest[i] != ':' && rest[i]
            != '"' by {
            assert(rest[i] == head[i + 1]);
        }
        assert(rest =~= line.drop_first().subrange(0, rest.len() as int));
        lemma_bare_text_to_a_colon(rest, line.drop_first());
    }
}

/// A parameter's name is told in upper case and its value without quotes;
/// a part without an `=` is no parameter.
pub proof fn lemma_a_parameter_is_named(parts: Seq<Text>, name: Text, value: Text, bare: Text)
    requires
        forall|i: int| 0 <= i < name.len() ==> #[trigger] name[i] != '=',
        forall|i: int| 0 <= i < bare.len() ==> #[trigger] bare[i] != '=',
    ensures
        params_of(parts.push(name + seq!['='] + value)) == params_of(parts).push(
            (uppercase(trim(name)), unwrap_char(trim(value), '"')),
        ),
        params_of(parts.push(bare)) == params_of(parts),
{
    let part = name + seq!['='] + value;
    assert(parts.push(part).drop_last() =~= parts);
    assert(parts.push(bare).drop_last() =~= parts);
    assert forall|i: int| 0 <= i < name.len() implies part[i] != '=' by {
        assert(part[i] == name[i]);
    }
    crate::scan::lemma_find_char_at(part, '=', name.len() as int);
    crate::scan::lemma_find_char_at(bare, '=', bare.len() as int);
    assert(part.take(name.len() as int) =~= name);
    assert(part.skip(name.len() as int + 1) =~= value);
}

/// A property's name is what follows its group, where it stands in one.
pub proof fn lemma_a_group_is_no_part_of_a_name(group: Text, name: Text)
    requires
        forall|i: int| 0 <= i < name.len() ==> #[trigger] name[i] != '.',
    ensures
        after_last(group + seq!['.'] + name, '.') == name,
        after_last(name, '.') == name,
{
    lemma_the_last_place(group, name, '.');
    lemma_nowhere(name, '.');
    assert((group + seq!['.'] + name).skip(group.len() as int + 1) =~= name);
}

proof fn lemma_nowhere(text: Text, c: char)
    requires
        forall|i: int| 0 <= i < text.len() ==> #[trigger] text[i] != c,
    ensures
        rfind_char(text, c) is None,
    decreases text.len(),
{
    if text.len() > 0 {
        let rest = text.drop_last();
        assert(text[text.len() - 1] != c);
        assert forall|i: int| 0 <= i < rest.len() implies #[trigger] rest[i] != c by {
            assert(rest[i] == text[i]);
        }
        lemma_nowhere(rest, c);
    }
}

proof fn lemma_the_last_place(before: Text, after: Text, c: char)
    requires
        forall|i: int| 0 <= i < after.len() ==> #[trigger] after[i] != c,
    ensures
        rfind_char(before + seq![c] + after, c) == Some(before.len() as int),
    decreases after.len(),
{
    let all = before + seq![c] + after;
    if after.len() > 0 {
        let rest = after.drop_last();
        assert(all.last() == after[after.len() - 1]);
        assert forall|i: int| 0 <= i < rest.len() implies #[trigger] rest[i] != c by {
            assert(rest[i] == after[i]);
        }
        assert(all.drop_last() =~= before + seq![c] + rest);
        lemma_the_last_place(before, rest, c);
    } else {
        assert(all.last() == c);
    }
}

/// A card sorts by its name in lower case, whatever else it says, and a
/// card without a name sorts first.
pub proof fn lemma_a_card_sorts_by_its_name(card: ContactSummaryView, other: ContactSummaryView)
    ensures
        card.full_name == other.full_name ==> card.sort_key() == other.sort_key(),
        card.full_name.len() == 0 ==> card.sort_key().len() == 0,
        card.full_name.len() > 0 && !crate::scan::is_white(simple_lower(card.full_name[0]))
            && !crate::scan::is_white(simple_lower(card.full_name.last())) ==> card.sort_key().len()
            == card.full_name.len() && card.sort_key()[0] == simple_lower(card.full_name[0]),
{
    let lowered = simply_lowered(card.full_name);
    assert(lowered.len() == card.full_name.len());
    if card.full_name.len() > 0 {
        assert(lowered[0] == simple_lower(card.full_name[0]));
        assert(lowered.last() == simple_lower(card.full_name.last()));
    }
}

} // verus!

//! # Mail summaries
//!
//! The `message/rfc822` derivation: the header block decoded (RFC 2047),
//! the addresses canonical, the `Date` an instant, and the MIME tree walked
//! for an attachment.
//!
//! The decoders are public so a connector building the summary from an
//! IMAP ENVELOPE at the `Meta` tier lands on the same bytes the `Full`
//! tier derives from the body.

use crate::list::push_to;
use crate::placement::{PimdirLinkId, PimdirSortKey};
use crate::scan::{
    append_chars, bounded_decimal, chars_of, cut_once, find, find_char, from_lossy,
    lemma_find_char, lossy_text, lower_ascii, lowercase, parse_signed, parse_unsigned, pieces,
    rfind, rfind_char, spells, spells_any_case, split, split_on, split_once, text_of, to_lower,
    to_upper, trim, trimmed, unwrap_char, unwrapped, uppercase, words, words_of,
};
use crate::summary::contact::{
    first_value, first_value_of, lemma_the_first_value_of_a_name, or_empty,
};
use crate::summary::time::{digits, digits_at, instant_text, rfc3339, unix, unix_seconds};
use crate::summary::{
    canonical_address, clone_addresses, unfold, unfolded, AddressView, DerivationView,
    PimdirAddress, PimdirDerivation, PimdirSummary, SummaryView,
};
use crate::text::{clone_texts, push_char, text_same, Text};
use vstd::prelude::*;
use vstd::slice::*;
use vstd::string::*;
use vstd::utf8::*;

verus! {

/// The summary row of a message with the people it names.
#[derive(Debug, PartialEq, Eq)]
pub struct PimdirMailSummary {
    /// The bare `Message-ID`, angle brackets stripped.
    pub message_id: Option<String>,
    /// The `In-Reply-To` ids, bare, in document order.
    pub in_reply_to: Vec<String>,
    /// The `Subject`, decoded; empty when absent.
    pub subject: String,
    /// The first `From` addr-spec, canonical.
    pub sender: Option<String>,
    /// Its display name, decoded.
    pub sender_name: Option<String>,
    /// The `Date` as an RFC 3339 instant in UTC; `None` when unparseable.
    pub date: Option<String>,
    /// The raw message octets, or `RFC822.SIZE` at the `Meta` tier.
    pub size: Option<u64>,
    /// Whether a part is an attachment; `None` when the parts were not walked.
    pub attachment: Option<bool>,
    /// Every `From` address, in document order.
    pub from: Vec<PimdirAddress>,
    /// Every `To` address, in document order.
    pub to: Vec<PimdirAddress>,
    /// Every `Cc` address, in document order.
    pub cc: Vec<PimdirAddress>,
    /// Every `Bcc` address, in document order.
    pub bcc: Vec<PimdirAddress>,
}

/// What a [`PimdirMailSummary`] says, by value.
#[verifier::ext_equal]
pub struct MailSummaryView {
    pub message_id: Option<Text>,
    pub in_reply_to: Seq<Text>,
    pub subject: Text,
    pub sender: Option<Text>,
    pub sender_name: Option<Text>,
    pub date: Option<Text>,
    pub size: Option<u64>,
    pub attachment: Option<bool>,
    pub from: Seq<AddressView>,
    pub to: Seq<AddressView>,
    pub cc: Seq<AddressView>,
    pub bcc: Seq<AddressView>,
}

impl View for PimdirMailSummary {
    type V = MailSummaryView;

    open spec fn view(&self) -> MailSummaryView {
        MailSummaryView {
            message_id: self.message_id.deep_view(),
            in_reply_to: self.in_reply_to.deep_view(),
            subject: self.subject@,
            sender: self.sender.deep_view(),
            sender_name: self.sender_name.deep_view(),
            date: self.date.deep_view(),
            size: self.size,
            attachment: self.attachment,
            from: self.from.deep_view(),
            to: self.to.deep_view(),
            cc: self.cc.deep_view(),
            bcc: self.bcc.deep_view(),
        }
    }
}

impl DeepView for PimdirMailSummary {
    type V = MailSummaryView;

    open spec fn deep_view(&self) -> MailSummaryView {
        self@
    }
}

impl Clone for PimdirMailSummary {
    fn clone(&self) -> (copy: Self)
        ensures
            copy@ == self@,
    {
        PimdirMailSummary {
            message_id: self.message_id.clone(),
            in_reply_to: clone_texts(&self.in_reply_to),
            subject: self.subject.clone(),
            sender: self.sender.clone(),
            sender_name: self.sender_name.clone(),
            date: self.date.clone(),
            size: self.size,
            attachment: self.attachment,
            from: clone_addresses(&self.from),
            to: clone_addresses(&self.to),
            cc: clone_addresses(&self.cc),
            bcc: clone_addresses(&self.bcc),
        }
    }
}

impl Default for PimdirMailSummary {
    fn default() -> (made: Self)
        ensures
            made@ == (MailSummaryView {
                message_id: None,
                in_reply_to: Seq::<Text>::empty(),
                subject: Text::empty(),
                sender: None,
                sender_name: None,
                date: None,
                size: None,
                attachment: None,
                from: Seq::<AddressView>::empty(),
                to: Seq::<AddressView>::empty(),
                cc: Seq::<AddressView>::empty(),
                bcc: Seq::<AddressView>::empty(),
            }),
    {
        PimdirMailSummary {
            message_id: None,
            in_reply_to: Vec::new(),
            subject: String::new(),
            sender: None,
            sender_name: None,
            date: None,
            size: None,
            attachment: None,
            from: Vec::new(),
            to: Vec::new(),
            cc: Vec::new(),
            bcc: Vec::new(),
        }
    }
}

impl MailSummaryView {
    /// The key a message is filed under.
    pub open spec fn link_id(self) -> Text {
        match self.message_id {
            Some(id) => id,
            None => "alt:"@ + self.subject + "|"@ + or_empty(self.date) + "|"@ + or_empty(
                self.sender,
            ),
        }
    }

    /// The ordering key of a message.
    pub open spec fn sort_key(self) -> Text {
        or_empty(self.date)
    }

    /// The whole derivation a summary yields.
    pub open spec fn derivation(self) -> DerivationView {
        DerivationView {
            link_id: self.link_id(),
            summary: Some(SummaryView::Mail(self)),
            sort_key: self.sort_key(),
        }
    }
}

/// Appends a text where there is one.
fn append_option(out: &mut String, text: &Option<String>)
    ensures
        final(out)@ == old(out)@ + or_empty(text.deep_view()),
{
    match text {
        Some(text) => out.append(text.as_str()),
        None => {
            assert(out@ + Text::empty() =~= out@);
        },
    }
}

impl PimdirMailSummary {
    /// The key the message is filed under: the `Message-ID`, else `alt:`
    /// over the subject, the date and the sender.
    pub fn link_id(&self) -> (key: PimdirLinkId)
        ensures
            key@ == self@.link_id(),
    {
        match &self.message_id {
            Some(id) => PimdirLinkId(id.clone()),
            None => {
                let mut key = "alt:".to_owned();
                key.append(self.subject.as_str());
                key.append("|");
                append_option(&mut key, &self.date);
                key.append("|");
                append_option(&mut key, &self.sender);
                PimdirLinkId(key)
            },
        }
    }

    /// The date column, read descending for a newest-first listing.
    pub fn sort_key(&self) -> (key: PimdirSortKey)
        ensures
            key@ == self@.sort_key(),
    {
        match &self.date {
            Some(date) => PimdirSortKey(date.clone()),
            None => PimdirSortKey(String::new()),
        }
    }

    /// The whole derivation this summary yields.
    pub fn derivation(self) -> (derivation: PimdirDerivation)
        ensures
            derivation@ == self@.derivation(),
    {
        PimdirDerivation {
            link_id: self.link_id(),
            sort_key: self.sort_key(),
            summary: Some(PimdirSummary::Mail(self)),
        }
    }
}

/// Where two characters first stand side by side, or the length where they
/// do not.
pub open spec fn find_pair(text: Text, a: char, b: char) -> int
    decreases text.len(),
{
    if text.len() == 0 {
        0
    } else if text.len() >= 2 && text[0] == a && text[1] == b {
        0
    } else {
        1 + find_pair(text.drop_first(), a, b)
    }
}

proof fn lemma_find_pair(text: Text, a: char, b: char)
    ensures
        0 <= find_pair(text, a, b) <= text.len(),
        find_pair(text, a, b) < text.len() ==> find_pair(text, a, b) + 2 <= text.len()
            && text[find_pair(text, a, b)] == a && text[find_pair(text, a, b) + 1] == b,
    decreases text.len(),
{
    if text.len() > 0 && !(text.len() >= 2 && text[0] == a && text[1] == b) {
        lemma_find_pair(text.drop_first(), a, b);
    }
}

/// Where two characters first stand side by side.
fn pair_at(text: &[char], a: char, b: char) -> (at: usize)
    ensures
        at == find_pair(text@, a, b),
        at <= text.len(),
        at < text.len() ==> at + 2 <= text.len(),
{
    let mut i: usize = 0;
    assert(text@.skip(0) =~= text@);
    while i < text.len()
        invariant
            i <= text.len(),
            find_pair(text@, a, b) == i + find_pair(text@.skip(i as int), a, b),
        decreases text.len() - i,
    {
        let ghost rest = text@.skip(i as int);
        proof {
            assert(rest[0] == text@[i as int]);
            assert(rest.len() >= 2 ==> rest[1] == text@[i + 1]);
            assert(rest.drop_first() =~= text@.skip(i + 1));
        }
        if text.len() - i >= 2 && text[i] == a && text[i + 1] == b {
            return i;
        }
        i = i + 1;
    }
    i
}

/// The six bits a base64 character stands for.
pub open spec fn sextet(c: char) -> Option<int> {
    if 'A' <= c <= 'Z' {
        Some(c as int - 'A' as int)
    } else if 'a' <= c <= 'z' {
        Some(c as int - 'a' as int + 26)
    } else if '0' <= c <= '9' {
        Some(c as int - '0' as int + 52)
    } else if c == '+' {
        Some(62)
    } else if c == '/' {
        Some(63)
    } else {
        None
    }
}

/// Whether base64 ignores a character: its padding and white space.
pub open spec fn is_filler(c: char) -> bool {
    c == '=' || c == ' ' || c == '\t' || c == '\r' || c == '\n'
}

/// The six-bit values of a base64 text, `None` on a foreign character.
pub open spec fn sextets(text: Text) -> Option<Seq<int>>
    decreases text.len(),
{
    if text.len() == 0 {
        Some(Seq::empty())
    } else {
        match sextets(text.drop_last()) {
            Some(before) => match sextet(text.last()) {
                Some(value) => Some(before.push(value)),
                None => if is_filler(text.last()) {
                    Some(before)
                } else {
                    None
                },
            },
            None => None,
        }
    }
}

/// The byte at a place of the bits six-bit values hold, eight at a time.
pub open spec fn packed_byte(values: Seq<int>, k: int) -> int {
    let g = 4 * (k / 3);
    if k % 3 == 0 {
        values[g] * 4 + values[g + 1] / 16
    } else if k % 3 == 1 {
        values[g + 1] % 16 * 16 + values[g + 2] / 4
    } else {
        values[g + 2] % 4 * 64 + values[g + 3]
    }
}

/// The whole bytes six-bit values hold.
pub open spec fn packed(values: Seq<int>) -> Seq<u8> {
    Seq::new((values.len() * 6) / 8, |k: int| packed_byte(values, k) as u8)
}

/// What a base64 text encodes.
pub open spec fn base64_bytes(text: Text) -> Option<Seq<u8>> {
    match sextets(text) {
        Some(values) => Some(packed(values)),
        None => None,
    }
}

/// The six bits a base64 character stands for.
fn sextet_of(c: char) -> (value: Option<u8>)
    ensures
        match value {
            Some(value) => sextet(c) == Some(value as int) && value < 64,
            None => sextet(c) is None,
        },
{
    if 'A' <= c && c <= 'Z' {
        Some((c as u32 - 'A' as u32) as u8)
    } else if 'a' <= c && c <= 'z' {
        Some((c as u32 - 'a' as u32 + 26) as u8)
    } else if '0' <= c && c <= '9' {
        Some((c as u32 - '0' as u32 + 52) as u8)
    } else if c == '+' {
        Some(62)
    } else if c == '/' {
        Some(63)
    } else {
        None
    }
}

proof fn lemma_no_sextets_stay(text: Text, i: int)
    requires
        0 <= i <= text.len(),
        sextets(text.take(i)) is None,
    ensures
        sextets(text) is None,
    decreases text.len() - i,
{
    if i < text.len() {
        assert(text.take(i + 1).drop_last() =~= text.take(i));
        lemma_no_sextets_stay(text, i + 1);
    } else {
        assert(text.take(i) =~= text);
    }
}

/// What bytes stand for.
pub open spec fn byte_numbers(list: Seq<u8>) -> Seq<int> {
    list.map_values(|n: u8| n as int)
}

/// Decodes RFC 4648 base64, ignoring white space; `None` on a foreign
/// character.
fn base64(text: &[char]) -> (bytes: Option<Vec<u8>>)
    ensures
        match bytes {
            Some(bytes) => base64_bytes(text@) == Some(bytes@),
            None => base64_bytes(text@) is None,
        },
{
    let mut values: Vec<u8> = Vec::new();
    let mut i: usize = 0;
    assert(byte_numbers(values@) =~= Seq::empty());
    while i < text.len()
        invariant
            i <= text.len(),
            values.len() <= i,
            sextets(text@.take(i as int)) == Some(byte_numbers(values@)),
            forall|j: int| 0 <= j < values.len() ==> values@[j] < 64,
        decreases text.len() - i,
    {
        let c = text[i];
        let ghost before = byte_numbers(values@);
        proof {
            assert(text@.take(i + 1).drop_last() =~= text@.take(i as int));
            assert(text@.take(i + 1).last() == c);
        }
        match sextet_of(c) {
            Some(value) => {
                values.push(value);
                assert(byte_numbers(values@) =~= before.push(value as int));
            },
            None => {
                if !(c == '=' || c == ' ' || c == '\t' || c == '\r' || c == '\n') {
                    proof {
                        lemma_no_sextets_stay(text@, i + 1);
                    }
                    return None;
                }
            },
        }
        i = i + 1;
    }
    assert(text@.take(i as int) =~= text@);
    let ghost all = byte_numbers(values@);
    let mut out: Vec<u8> = Vec::new();
    let mut k: usize = 0;
    let n: usize = values.len();
    let total: usize = n / 4 * 3 + (if n % 4 == 0 {
        0
    } else {
        n % 4 - 1
    });
    assert(total == (n * 6) / 8);
    while k < total
        invariant
            k <= total,
            n == values.len(),
            total == (n * 6) / 8,
            all == byte_numbers(values@),
            out@ == packed(all).take(k as int),
            forall|j: int| 0 <= j < values.len() ==> values@[j] < 64,
        decreases total - k,
    {
        let g: usize = k / 3 * 4;
        proof {
            assert(packed(all).take(k + 1).drop_last() =~= packed(all).take(k as int));
            assert(8 * (k + 1) <= n * 6);
            assert(g == 4 * (k / 3));
            assert(k == 3 * (k / 3) + k % 3);
            assert(g + 1 < n);
            assert(k % 3 == 1 ==> g + 2 < n);
            assert(k % 3 == 2 ==> g + 3 < n);
        }
        let byte: u8 = if k % 3 == 0 {
            values[g] * 4 + values[g + 1] / 16
        } else if k % 3 == 1 {
            values[g + 1] % 16 * 16 + values[g + 2] / 4
        } else {
            values[g + 2] % 4 * 64 + values[g + 3]
        };
        out.push(byte);
        assert(byte as int == packed_byte(all, k as int));
        assert(out@ =~= packed(all).take(k + 1));
        k = k + 1;
    }
    assert(packed(all).take(k as int) =~= packed(all));
    Some(out)
}

/// The number a hexadecimal digit stands for.
pub open spec fn hex_value(byte: u8) -> Option<int> {
    if 0x30 <= byte <= 0x39 {
        Some(byte - 0x30)
    } else if 0x61 <= byte <= 0x66 {
        Some(byte - 0x61 + 10)
    } else if 0x41 <= byte <= 0x46 {
        Some(byte - 0x41 + 10)
    } else {
        None
    }
}

/// The byte two hexadecimal digits stand for.
pub open spec fn hex_pair_value(high: u8, low: u8) -> Option<u8> {
    match (hex_value(high), hex_value(low)) {
        (Some(high), Some(low)) => Some((16 * high + low) as u8),
        _ => None,
    }
}

fn hex_digit_value(byte: u8) -> (value: Option<u8>)
    ensures
        match value {
            Some(value) => hex_value(byte) == Some(value as int) && value < 16,
            None => hex_value(byte) is None,
        },
{
    if 0x30 <= byte && byte <= 0x39 {
        Some(byte - 0x30)
    } else if 0x61 <= byte && byte <= 0x66 {
        Some(byte - 0x61 + 10)
    } else if 0x41 <= byte && byte <= 0x46 {
        Some(byte - 0x41 + 10)
    } else {
        None
    }
}

/// The byte two hexadecimal digits stand for.
fn hex_pair(high: u8, low: u8) -> (byte: Option<u8>)
    ensures
        byte == hex_pair_value(high, low),
{
    match (hex_digit_value(high), hex_digit_value(low)) {
        (Some(high), Some(low)) => Some(high * 16 + low),
        _ => None,
    }
}

/// What a quoted-printable text encodes, the `_` of a header a space where
/// `header` is set.
pub open spec fn quoted_printable_bytes(bytes: Seq<u8>, header: bool) -> Seq<u8>
    decreases bytes.len(),
{
    if bytes.len() == 0 {
        bytes
    } else if bytes[0] == 0x3d && bytes.len() > 2 && hex_pair_value(bytes[1], bytes[2]) is Some {
        seq![hex_pair_value(bytes[1], bytes[2])->0] + quoted_printable_bytes(bytes.skip(3), header)
    } else if bytes[0] == 0x5f && header {
        seq![0x20u8] + quoted_printable_bytes(bytes.drop_first(), header)
    } else {
        seq![bytes[0]] + quoted_printable_bytes(bytes.drop_first(), header)
    }
}

/// Decodes RFC 2045 quoted-printable, with the `_` of RFC 2047 4.2 when
/// `header` is set.
fn quoted_printable(bytes: &[u8], header: bool) -> (out: Vec<u8>)
    ensures
        out@ == quoted_printable_bytes(bytes@, header),
{
    let mut out: Vec<u8> = Vec::new();
    let mut at: usize = 0;
    assert(bytes@.skip(0) =~= bytes@);
    assert(out@ + quoted_printable_bytes(bytes@, header) =~= quoted_printable_bytes(
        bytes@,
        header,
    ));
    while at < bytes.len()
        invariant
            at <= bytes.len(),
            out@ + quoted_printable_bytes(bytes@.skip(at as int), header)
                == quoted_printable_bytes(bytes@, header),
        decreases bytes.len() - at,
    {
        let ghost rest = bytes@.skip(at as int);
        let ghost before = out@;
        proof {
            assert(rest[0] == bytes@[at as int]);
            assert(rest.drop_first() =~= bytes@.skip(at + 1));
        }
        let pair = if bytes[at] == 0x3d && bytes.len() - at > 2 {
            assert(rest[1] == bytes@[at + 1] && rest[2] == bytes@[at + 2]);
            hex_pair(bytes[at + 1], bytes[at + 2])
        } else {
            None
        };
        match pair {
            Some(byte) => {
                out.push(byte);
                proof {
                    assert(rest.skip(3) =~= bytes@.skip(at + 3));
                    assert(out@ + quoted_printable_bytes(bytes@.skip(at + 3), header) =~= before
                        + quoted_printable_bytes(rest, header));
                }
                at = at + 3;
            },
            None => {
                let byte: u8 = if bytes[at] == 0x5f && header {
                    0x20
                } else {
                    bytes[at]
                };
                out.push(byte);
                proof {
                    assert(out@ + quoted_printable_bytes(bytes@.skip(at + 1), header) =~= before
                        + quoted_printable_bytes(rest, header));
                }
                at = at + 1;
            },
        }
    }
    assert(out@ + quoted_printable_bytes(bytes@.skip(at as int), header) =~= out@);
    out
}

/// One `windows-1252` byte as its code point.
pub open spec fn cp1252_char(byte: u8) -> char {
    if 0x80 <= byte <= 0x9f {
        "\u{20ac}\u{81}\u{201a}\u{192}\u{201e}\u{2026}\u{2020}\u{2021}\u{2c6}\u{2030}\u{160}\u{2039}\u{152}\u{8d}\u{17d}\u{8f}\u{90}\u{2018}\u{2019}\u{201c}\u{201d}\u{2022}\u{2013}\u{2014}\u{2dc}\u{2122}\u{161}\u{203a}\u{153}\u{9d}\u{17e}\u{178}"@[byte
            - 0x80]
    } else {
        byte as char
    }
}

/// One `windows-1252` byte as its code point: latin1 except for the 0x80
/// to 0x9F row, where five undefined bytes map to themselves.
fn cp1252(byte: u8) -> (c: char)
    ensures
        c == cp1252_char(byte),
{
    if 0x80 <= byte && byte <= 0x9f {
        proof {
            reveal_strlit(
                "\u{20ac}\u{81}\u{201a}\u{192}\u{201e}\u{2026}\u{2020}\u{2021}\u{2c6}\u{2030}\u{160}\u{2039}\u{152}\u{8d}\u{17d}\u{8f}\u{90}\u{2018}\u{2019}\u{201c}\u{201d}\u{2022}\u{2013}\u{2014}\u{2dc}\u{2122}\u{161}\u{203a}\u{153}\u{9d}\u{17e}\u{178}",
            );
        }
        "\u{20ac}\u{81}\u{201a}\u{192}\u{201e}\u{2026}\u{2020}\u{2021}\u{2c6}\u{2030}\u{160}\u{2039}\u{152}\u{8d}\u{17d}\u{8f}\u{90}\u{2018}\u{2019}\u{201c}\u{201d}\u{2022}\u{2013}\u{2014}\u{2dc}\u{2122}\u{161}\u{203a}\u{153}\u{9d}\u{17e}\u{178}".get_char(
        (byte - 0x80) as usize)
    } else {
        byte as char
    }
}

/// A charset's name without the language behind a star, in lower case.
pub open spec fn charset_name(charset: Text) -> Text {
    lowercase(charset.take(find_char(charset, '*')))
}

/// Bytes under a MIME charset as text.
pub open spec fn charset_text(charset: Text, bytes: Seq<u8>) -> Text {
    let name = charset_name(charset);
    if name == "iso-8859-1"@ || name == "latin1"@ || name == "us-ascii"@ || name == "ascii"@ {
        bytes.map_values(|byte: u8| byte as char)
    } else if name == "windows-1252"@ || name == "cp1252"@ {
        bytes.map_values(|byte: u8| cp1252_char(byte))
    } else {
        lossy_text(bytes)
    }
}

/// Bytes under a MIME charset as text: `iso-8859-1` and `us-ascii` by the
/// byte, `windows-1252` by its table, and every other charset as UTF-8,
/// replacing what does not decode. No charset tables are carried beyond
/// these, so another 8-bit charset reads lossily.
fn charset_decode(charset: &[char], bytes: &[u8]) -> (text: String)
    ensures
        text@ == charset_text(charset@, bytes@),
{
    let star = find(charset, '*');
    let plain = slice_subrange(charset, 0, star);
    assert(plain@ =~= charset@.take(star as int));
    let name = to_lower(text_of(plain).as_str());
    let name = name.as_str();
    let latin = text_same(name, "iso-8859-1") || text_same(name, "latin1") || text_same(
        name,
        "us-ascii",
    ) || text_same(name, "ascii");
    let windows = text_same(name, "windows-1252") || text_same(name, "cp1252");
    if !latin && !windows {
        return from_lossy(bytes);
    }
    let mut text = String::new();
    let mut i: usize = 0;
    while i < bytes.len()
        invariant
            i <= bytes.len(),
            latin ==> text@ =~= bytes@.take(i as int).map_values(|byte: u8| byte as char),
            !latin ==> text@ =~= bytes@.take(i as int).map_values(|byte: u8| cp1252_char(byte)),
        decreases bytes.len() - i,
    {
        let c = if latin {
            bytes[i] as char
        } else {
            cp1252(bytes[i])
        };
        push_char(&mut text, c);
        i = i + 1;
    }
    assert(bytes@.take(i as int) =~= bytes@);
    text
}

/// One `encoded-word` at the head of a text, decoded, and its length.
pub open spec fn encoded_word_of(text: Text) -> Option<(Text, int)> {
    if text.len() >= 2 && text[0] == '=' && text[1] == '?' {
        match cut_once(text.skip(2), '?') {
            Some((charset, rest)) => match cut_once(rest, '?') {
                Some((encoding, rest)) => {
                    let end = find_pair(rest, '?', '=');
                    let payload = rest.take(end);
                    let bytes = if end >= rest.len() {
                        None
                    } else if encoding == "B"@ || encoding == "b"@ {
                        base64_bytes(payload)
                    } else if encoding == "Q"@ || encoding == "q"@ {
                        Some(quoted_printable_bytes(encode_utf8(payload), true))
                    } else {
                        None
                    };
                    match bytes {
                        Some(bytes) => Some(
                            (
                                charset_text(charset, bytes),
                                2 + charset.len() + 1 + encoding.len() + 1 + end + 2,
                            ),
                        ),
                        None => None,
                    }
                },
                None => None,
            },
            None => None,
        }
    } else {
        None
    }
}

proof fn lemma_encoded_word_len(text: Text)
    ensures
        encoded_word_of(text) matches Some((word, len)) ==> 2 < len <= text.len(),
{
    if text.len() >= 2 && text[0] == '=' && text[1] == '?' {
        let inner = text.skip(2);
        lemma_find_char(inner, '?');
        match cut_once(inner, '?') {
            Some((charset, rest)) => {
                lemma_find_char(rest, '?');
                match cut_once(rest, '?') {
                    Some((encoding, last)) => {
                        lemma_find_pair(last, '?', '=');
                    },
                    None => {},
                }
            },
            None => {},
        }
    }
}

/// One RFC 2047 `encoded-word` at the head of `text`, and its length.
fn encoded_word(text: &[char]) -> (word: Option<(String, usize)>)
    ensures
        match word {
            Some((word, len)) => encoded_word_of(text@) == Some((word@, len as int)) && 2 < len
                <= text.len(),
            None => encoded_word_of(text@) is None,
        },
{
    proof {
        lemma_encoded_word_len(text@);
    }
    if text.len() < 2 || text[0] != '=' || text[1] != '?' {
        return None;
    }
    let inner = slice_subrange(text, 2, text.len());
    assert(inner@ =~= text@.skip(2));
    let (charset, rest) = match split_once(inner, '?') {
        Some(cut) => cut,
        None => {
            return None;
        },
    };
    let (encoding, rest) = match split_once(rest, '?') {
        Some(cut) => cut,
        None => {
            return None;
        },
    };
    let end = pair_at(rest, '?', '=');
    if end >= rest.len() {
        return None;
    }
    let payload = slice_subrange(rest, 0, end);
    assert(payload@ =~= rest@.take(end as int));
    let bytes = if spells(encoding, "B") || spells(encoding, "b") {
        base64(payload)
    } else if spells(encoding, "Q") || spells(encoding, "q") {
        let raw = text_of(payload);
        Some(quoted_printable(raw.as_str().as_bytes(), true))
    } else {
        None
    };
    match bytes {
        Some(bytes) => {
            proof {
                lemma_find_char(inner@, '?');
                lemma_find_char((cut_once(inner@, '?')->0).1, '?');
            }
            let len: usize = 2 + charset.len() + 1 + encoding.len() + 1 + end + 2;
            Some((charset_decode(charset, bytes.as_slice()), len))
        },
        None => None,
    }
}

/// A header value with its encoded words decoded; `after_word` where an
/// encoded word stands in front.
pub open spec fn decoded_from(rest: Text, after_word: bool) -> Text
    decreases rest.len(),
    via decoded_from_shrinks
{
    let start = find_pair(rest, '=', '?');
    if start >= rest.len() {
        rest
    } else {
        let text = rest.take(start);
        let tail = rest.skip(start);
        match encoded_word_of(tail) {
            Some((word, len)) => (if after_word && trim(text).len() == 0 {
                Text::empty()
            } else {
                text
            }) + word + decoded_from(tail.skip(len), true),
            None => text + "=?"@ + decoded_from(tail.skip(2), false),
        }
    }
}

#[via_fn]
proof fn decoded_from_shrinks(rest: Text, after_word: bool) {
    lemma_find_pair(rest, '=', '?');
    lemma_encoded_word_len(rest.skip(find_pair(rest, '=', '?')));
}

/// A header value decoded.
pub open spec fn decoded(raw: Text) -> Text {
    trim(decoded_from(raw, false))
}

/// Decodes a header value: RFC 2047 encoded words decoded.
///
/// Adjacent encoded words are joined without the white space between them
/// (RFC 2047 6.2); an unknown charset reads its bytes as UTF-8, lossily.
pub fn decode(raw: &str) -> (text: String)
    ensures
        text@ == decoded(raw@),
{
    let chars = chars_of(raw);
    let chars = chars.as_slice();
    let mut out = String::new();
    let mut from: usize = 0;
    let mut after_word = false;
    assert(chars@.skip(0) =~= chars@);
    assert(out@ + decoded_from(chars@, false) =~= decoded_from(chars@, false));
    loop
        invariant_except_break
            from <= chars.len(),
            chars@ == raw@,
            out@ + decoded_from(chars@.skip(from as int), after_word) == decoded_from(raw@, false),
        ensures
            out@ == decoded_from(raw@, false),
        decreases chars.len() - from,
    {
        let rest = slice_subrange(chars, from, chars.len());
        let ghost before = out@;
        assert(rest@ =~= chars@.skip(from as int));
        let start = pair_at(rest, '=', '?');
        if start >= rest.len() {
            append_chars(&mut out, rest);
            break;
        }
        let text = slice_subrange(rest, 0, start);
        let tail = slice_subrange(rest, start, rest.len());
        proof {
            assert(text@ =~= rest@.take(start as int));
            assert(tail@ =~= rest@.skip(start as int));
        }
        match encoded_word(tail) {
            Some((word, len)) => {
                if !(after_word && trimmed(text).len() == 0) {
                    append_chars(&mut out, text);
                }
                out.append(word.as_str());
                proof {
                    assert(tail@.skip(len as int) =~= chars@.skip(from + start + len));
                    assert(out@ + decoded_from(tail@.skip(len as int), true) =~= before
                        + decoded_from(rest@, after_word));
                }
                from = from + start + len;
                after_word = true;
            },
            None => {
                append_chars(&mut out, text);
                out.append("=?");
                proof {
                    assert(tail@.skip(2) =~= chars@.skip(from + start + 2));
                    assert(out@ + decoded_from(tail@.skip(2), false) =~= before + decoded_from(
                        rest@,
                        after_word,
                    ));
                }
                from = from + start + 2;
                after_word = false;
            },
        }
    }
    let decoded = chars_of(out.as_str());
    text_of(trimmed(decoded.as_slice()))
}

/// An address list as far as it is read: the mailboxes before, the one
/// being read, and what stands open around it.
#[verifier::ext_equal]
pub struct ListState {
    pub out: Seq<Text>,
    pub current: Text,
    pub quoted: bool,
    pub comment: nat,
    pub angled: bool,
    pub escaped: bool,
}

/// An address list after one more character.
pub open spec fn list_step(state: ListState, c: char) -> ListState {
    let kept = ListState { current: state.current.push(c), ..state };
    if state.escaped {
        ListState { escaped: false, ..kept }
    } else if c == '\\' && state.quoted {
        ListState { escaped: true, ..kept }
    } else if c == '"' && state.comment == 0 {
        ListState { quoted: !state.quoted, ..kept }
    } else if c == '(' && !state.quoted {
        ListState { comment: state.comment + 1, ..state }
    } else if c == ')' && !state.quoted && state.comment > 0 {
        ListState { comment: (state.comment - 1) as nat, ..state }
    } else if state.comment > 0 {
        state
    } else if c == '<' && !state.quoted {
        ListState { angled: true, ..kept }
    } else if c == '>' && !state.quoted {
        ListState { angled: false, ..kept }
    } else if c == ':' && !state.quoted && !state.angled && !state.current.contains('@') {
        ListState { current: Text::empty(), ..state }
    } else if (c == ',' || c == ';') && !state.quoted && !state.angled {
        ListState { out: state.out.push(state.current), current: Text::empty(), ..state }
    } else {
        kept
    }
}

/// An address list read character by character.
pub open spec fn list_of(text: Text) -> ListState
    decreases text.len(),
{
    if text.len() == 0 {
        ListState {
            out: Seq::empty(),
            current: Text::empty(),
            quoted: false,
            comment: 0,
            angled: false,
            escaped: false,
        }
    } else {
        list_step(list_of(text.drop_last()), text.last())
    }
}

/// The texts that are not blank.
pub open spec fn not_blank(texts: Seq<Text>) -> Seq<Text>
    decreases texts.len(),
{
    if texts.len() == 0 {
        texts
    } else if trim(texts.last()).len() == 0 {
        not_blank(texts.drop_last())
    } else {
        not_blank(texts.drop_last()).push(texts.last())
    }
}

/// The mailboxes of an address list.
pub open spec fn mailboxes_of(raw: Text) -> Seq<Text> {
    let list = list_of(raw);
    not_blank(list.out.push(list.current))
}

/// Whether characters hold one.
fn holds(text: &[char], c: char) -> (yes: bool)
    ensures
        yes == text@.contains(c),
{
    let at = find(text, c);
    proof {
        lemma_find_char(text@, c);
        if at < text.len() {
            assert(text@[at as int] == c);
        }
    }
    at < text.len()
}

/// Splits an address list into its mailboxes: at the commas outside quotes,
/// comments and angle brackets, with a group's name and its closing
/// semicolon removed.
fn mailboxes(raw: &str) -> (out: Vec<String>)
    ensures
        out.deep_view() == mailboxes_of(raw@),
{
    let chars = chars_of(raw);
    let mut all: Vec<String> = Vec::new();
    let mut current: Vec<char> = Vec::new();
    let mut quoted = false;
    let mut comment: usize = 0;
    let mut angled = false;
    let mut escaped = false;
    let mut i: usize = 0;
    assert(all.deep_view() =~= list_of(chars@.take(0)).out);
    while i < chars.len()
        invariant
            i <= chars.len(),
            comment <= i,
            list_of(chars@.take(i as int)) == (ListState {
                out: all.deep_view(),
                current: current@,
                quoted,
                comment: comment as nat,
                angled,
                escaped,
            }),
        decreases chars.len() - i,
    {
        let c = chars[i];
        proof {
            assert(chars@.take(i + 1).drop_last() =~= chars@.take(i as int));
            assert(chars@.take(i + 1).last() == c);
        }
        if escaped {
            current.push(c);
            escaped = false;
        } else if c == '\\' && quoted {
            current.push(c);
            escaped = true;
        } else if c == '"' && comment == 0 {
            quoted = !quoted;
            current.push(c);
        } else if c == '(' && !quoted {
            comment = comment + 1;
        } else if c == ')' && !quoted && comment > 0 {
            comment = comment - 1;
        } else if comment > 0 {
        } else if c == '<' && !quoted {
            angled = true;
            current.push(c);
        } else if c == '>' && !quoted {
            angled = false;
            current.push(c);
        } else if c == ':' && !quoted && !angled && !holds(current.as_slice(), '@') {
            current = Vec::new();
            assert(current@ =~= Text::empty());
        } else if (c == ',' || c == ';') && !quoted && !angled {
            push_to(&mut all, text_of(current.as_slice()));
            current = Vec::new();
            assert(current@ =~= Text::empty());
        } else {
            current.push(c);
        }
        i = i + 1;
    }
    assert(chars@.take(i as int) =~= chars@);
    push_to(&mut all, text_of(current.as_slice()));
    keep_filled(&all)
}

/// The texts that are not blank.
fn keep_filled(texts: &Vec<String>) -> (out: Vec<String>)
    ensures
        out.deep_view() == not_blank(texts.deep_view()),
{
    let ghost all = texts.deep_view();
    let mut out: Vec<String> = Vec::new();
    let mut i: usize = 0;
    assert(out.deep_view() =~= not_blank(all.take(0)));
    while i < texts.len()
        invariant
            i <= texts.len(),
            all == texts.deep_view(),
            out.deep_view() == not_blank(all.take(i as int)),
        decreases texts.len() - i,
    {
        proof {
            assert(all.take(i + 1).drop_last() =~= all.take(i as int));
            assert(all.take(i + 1).last() == texts@[i as int]@);
        }
        let chars = chars_of(texts[i].as_str());
        if trimmed(chars.as_slice()).len() > 0 {
            push_to(&mut out, texts[i].clone());
        }
        i = i + 1;
    }
    assert(all.take(i as int) =~= all);
    out
}

/// A text with its backslash escapes removed.
pub open spec fn without_escapes(text: Text) -> Text
    decreases text.len(),
{
    if text.len() == 0 {
        text
    } else if text[0] == '\\' {
        if text.len() == 1 {
            Text::empty()
        } else {
            seq![text[1]] + without_escapes(text.skip(2))
        }
    } else {
        seq![text[0]] + without_escapes(text.drop_first())
    }
}

/// A display name with its surrounding quotes and their escapes removed.
pub open spec fn unquoted_name(name: Text) -> Text {
    if name.len() >= 2 && name[0] == '"' && name.last() == '"' {
        without_escapes(name.subrange(1, name.len() - 1))
    } else {
        name
    }
}

/// A display name with its surrounding quotes and their escapes removed.
fn unquote(name: &[char]) -> (out: String)
    ensures
        out@ == unquoted_name(name@),
{
    if name.len() < 2 || name[0] != '"' || name[name.len() - 1] != '"' {
        return text_of(name);
    }
    let text = slice_subrange(name, 1, name.len() - 1);
    let mut out = String::new();
    let mut i: usize = 0;
    assert(text@.skip(0) =~= text@);
    assert(out@ + without_escapes(text@) =~= without_escapes(text@));
    while i < text.len()
        invariant
            i <= text.len(),
            unquoted_name(name@) == without_escapes(text@),
            out@ + without_escapes(text@.skip(i as int)) == without_escapes(text@),
        decreases text.len() - i,
    {
        let ghost rest = text@.skip(i as int);
        let ghost before = out@;
        proof {
            assert(rest[0] == text@[i as int]);
            assert(rest.drop_first() =~= text@.skip(i + 1));
        }
        if text[i] == '\\' {
            if i + 1 == text.len() {
                assert(without_escapes(rest) == Text::empty());
                assert(out@ + without_escapes(rest) =~= out@);
                return out;
            }
            assert(rest[1] == text@[i + 1]);
            assert(rest.skip(2) =~= text@.skip(i + 2));
            push_char(&mut out, text[i + 1]);
            assert(out@ + without_escapes(text@.skip(i + 2)) =~= before + without_escapes(rest));
            i = i + 2;
        } else {
            push_char(&mut out, text[i]);
            assert(out@ + without_escapes(text@.skip(i + 1)) =~= before + without_escapes(rest));
            i = i + 1;
        }
    }
    assert(out@ + without_escapes(text@.skip(i as int)) =~= out@);
    out
}

/// A display name, decoded and unquoted, `None` where nothing is left.
pub open spec fn display_name(raw: Text) -> Option<Text> {
    let name = decoded(unquoted_name(trim(raw)));
    if name.len() == 0 {
        None
    } else {
        Some(name)
    }
}

/// The address a mailbox names, with the display name in front.
pub open spec fn mailbox_address(mailbox: Text) -> Option<AddressView> {
    let mailbox = trim(mailbox);
    let open = find_char(mailbox, '<');
    let (name, raw) = match rfind_char(mailbox, '>') {
        Some(close) if open < close => (
            display_name(mailbox.take(open)),
            mailbox.subrange(open + 1, close),
        ),
        _ => (None, mailbox),
    };
    let address = canonical_address(raw);
    if address.len() == 0 {
        None
    } else {
        Some(AddressView { address, name })
    }
}

/// The addresses mailboxes name, in order.
pub open spec fn addresses_in(mailboxes: Seq<Text>) -> Seq<AddressView>
    decreases mailboxes.len(),
{
    if mailboxes.len() == 0 {
        Seq::empty()
    } else {
        match mailbox_address(mailboxes.last()) {
            Some(address) => addresses_in(mailboxes.drop_last()).push(address),
            None => addresses_in(mailboxes.drop_last()),
        }
    }
}

/// The addresses of an address-list header.
pub open spec fn addresses_of(raw: Text) -> Seq<AddressView> {
    addresses_in(mailboxes_of(raw))
}

/// The address a mailbox names.
fn address_of(mailbox: &str) -> (address: Option<PimdirAddress>)
    ensures
        address.deep_view() == mailbox_address(mailbox@),
{
    let chars = chars_of(mailbox);
    let mailbox = trimmed(chars.as_slice());
    let open = find(mailbox, '<');
    let cut = match rfind(mailbox, '>') {
        Some(close) => if open < close {
            Some(close)
        } else {
            None
        },
        None => None,
    };
    let (name, raw) = match cut {
        Some(close) => {
            let head = slice_subrange(mailbox, 0, open);
            assert(head@ =~= mailbox@.take(open as int));
            let name = decode(unquote(trimmed(head)).as_str());
            let blank = chars_of(name.as_str()).len() == 0;
            (
                if blank {
                    None
                } else {
                    Some(name)
                },
                slice_subrange(mailbox, open + 1, close),
            )
        },
        None => (None, mailbox),
    };
    let address = PimdirAddress::canonical(text_of(raw).as_str());
    if chars_of(address.as_str()).len() == 0 {
        return None;
    }
    Some(PimdirAddress { address, name })
}

/// The addresses of an address-list header, in document order.
///
/// Groups are flattened, comments dropped, display names decoded and
/// unquoted, and every addr-spec made canonical.
pub fn addresses(raw: &str) -> (list: Vec<PimdirAddress>)
    ensures
        list.deep_view() == addresses_of(raw@),
{
    let mailboxes = mailboxes(raw);
    let ghost all = mailboxes.deep_view();
    let mut out: Vec<PimdirAddress> = Vec::new();
    let mut i: usize = 0;
    assert(out.deep_view() =~= addresses_in(all.take(0)));
    while i < mailboxes.len()
        invariant
            i <= mailboxes.len(),
            all == mailboxes.deep_view(),
            out.deep_view() == addresses_in(all.take(i as int)),
        decreases mailboxes.len() - i,
    {
        proof {
            assert(all.take(i + 1).drop_last() =~= all.take(i as int));
            assert(all.take(i + 1).last() == mailboxes@[i as int]@);
        }
        if let Some(address) = address_of(mailboxes[i].as_str()) {
            push_to(&mut out, address);
        }
        i = i + 1;
    }
    assert(all.take(i as int) =~= all);
    out
}

/// A `msg-id` without its angle brackets; an empty one is no id at all.
pub open spec fn bare_id(raw: Text) -> Option<Text> {
    let trimmed = trim(raw);
    let inner = if trimmed.len() >= 2 && trimmed[0] == '<' && trimmed.last() == '>' {
        trimmed.subrange(1, trimmed.len() - 1)
    } else {
        trimmed
    };
    if trim(inner).len() == 0 {
        None
    } else {
        Some(trim(inner))
    }
}

/// Strips a `msg-id`'s angle brackets; an empty result is no id at all.
fn strip_angles(raw: &[char]) -> (id: Option<String>)
    ensures
        id.deep_view() == bare_id(raw@),
{
    let outer = trimmed(raw);
    let inner = if outer.len() >= 2 && outer[0] == '<' && outer[outer.len() - 1] == '>' {
        slice_subrange(outer, 1, outer.len() - 1)
    } else {
        outer
    };
    let inner = trimmed(inner);
    if inner.len() == 0 {
        None
    } else {
        Some(text_of(inner))
    }
}

/// The ids pieces of a value hold: each the piece itself, or what stands
/// before its closing bracket.
pub open spec fn ids_in(parts: Seq<Text>, bracketed: bool) -> Seq<Text>
    decreases parts.len(),
{
    if parts.len() == 0 {
        parts
    } else {
        let before = ids_in(parts.drop_last(), bracketed);
        let id = if bracketed {
            match cut_once(parts.last(), '>') {
                Some((id, _)) => bare_id(id),
                None => None,
            }
        } else {
            bare_id(parts.last())
        };
        match id {
            Some(id) => before.push(id),
            None => before,
        }
    }
}

/// The bare ids of an `In-Reply-To` or `References` value.
pub open spec fn ids_of(raw: Text) -> Seq<Text> {
    if raw.contains('<') {
        ids_in(split_on(raw, '<'), true)
    } else {
        ids_in(words_of(raw), false)
    }
}

/// The bare ids of an `In-Reply-To` or `References` value (RFC 5322 3.6.4,
/// `1*msg-id`), read off their angle brackets when they carry any and off
/// white space otherwise.
pub fn message_ids(raw: &str) -> (ids: Vec<String>)
    ensures
        ids.deep_view() == ids_of(raw@),
{
    let chars = chars_of(raw);
    let chars = chars.as_slice();
    let bracketed = holds(chars, '<');
    let parts = if bracketed {
        split(chars, '<')
    } else {
        words(chars)
    };
    let ghost all = pieces(parts@);
    let mut ids: Vec<String> = Vec::new();
    let mut i: usize = 0;
    assert(ids.deep_view() =~= ids_in(all.take(0), bracketed));
    while i < parts.len()
        invariant
            i <= parts.len(),
            all == pieces(parts@),
            ids.deep_view() == ids_in(all.take(i as int), bracketed),
        decreases parts.len() - i,
    {
        let part = parts[i];
        proof {
            assert(all.take(i + 1).drop_last() =~= all.take(i as int));
            assert(all.take(i + 1).last() == part@);
        }
        let id = if bracketed {
            match split_once(part, '>') {
                Some((id, _)) => strip_angles(id),
                None => None,
            }
        } else {
            strip_angles(part)
        };
        if let Some(id) = id {
            push_to(&mut ids, id);
        }
        i = i + 1;
    }
    assert(all.take(i as int) =~= all);
    ids
}

/// The month a `date-time`'s three-letter name stands for.
pub open spec fn month_number(name: Text) -> Option<int> {
    let name = lowercase(name);
    if name == "jan"@ {
        Some(1)
    } else if name == "feb"@ {
        Some(2)
    } else if name == "mar"@ {
        Some(3)
    } else if name == "apr"@ {
        Some(4)
    } else if name == "may"@ {
        Some(5)
    } else if name == "jun"@ {
        Some(6)
    } else if name == "jul"@ {
        Some(7)
    } else if name == "aug"@ {
        Some(8)
    } else if name == "sep"@ {
        Some(9)
    } else if name == "oct"@ {
        Some(10)
    } else if name == "nov"@ {
        Some(11)
    } else if name == "dec"@ {
        Some(12)
    } else {
        None
    }
}

/// The month a `date-time`'s three-letter name stands for.
fn month(name: &[char]) -> (month: Option<u32>)
    ensures
        match month {
            Some(month) => month_number(name@) == Some(month as int),
            None => month_number(name@) is None,
        },
{
    let lower = to_lower(text_of(name).as_str());
    let name = lower.as_str();
    if text_same(name, "jan") {
        Some(1)
    } else if text_same(name, "feb") {
        Some(2)
    } else if text_same(name, "mar") {
        Some(3)
    } else if text_same(name, "apr") {
        Some(4)
    } else if text_same(name, "may") {
        Some(5)
    } else if text_same(name, "jun") {
        Some(6)
    } else if text_same(name, "jul") {
        Some(7)
    } else if text_same(name, "aug") {
        Some(8)
    } else if text_same(name, "sep") {
        Some(9)
    } else if text_same(name, "oct") {
        Some(10)
    } else if text_same(name, "nov") {
        Some(11)
    } else if text_same(name, "dec") {
        Some(12)
    } else {
        None
    }
}

/// A `date-time`'s year, with its two- and three-digit forms.
pub open spec fn year_number(raw: Text) -> Option<int> {
    match bounded_decimal(raw, true, i32::MIN as int, i32::MAX as int) {
        Some(year) => Some(
            if raw.len() == 2 && year < 50 {
                2000 + year
            } else if raw.len() == 2 || raw.len() == 3 {
                1900 + year
            } else {
                year
            },
        ),
        None => None,
    }
}

/// A short decimal is a small number.
proof fn lemma_short_decimal(text: Text)
    requires
        text.len() <= 3,
    ensures
        crate::scan::all_digits(text) ==> crate::scan::digits_value(text) <= 999,
{
    reveal_with_fuel(crate::scan::digits_value, 4);
    if crate::scan::all_digits(text) {
        assert(crate::scan::is_digit(text.last()));
        if text.len() >= 2 {
            assert(text.drop_last().last() == text[text.len() - 2]);
            assert(crate::scan::is_digit(text[text.len() - 2]));
        }
        if text.len() >= 3 {
            assert(text.drop_last().drop_last().last() == text[text.len() - 3]);
            assert(crate::scan::is_digit(text[text.len() - 3]));
        }
    }
}

/// A `date-time`'s year, with the two- and three-digit forms of RFC 5322
/// 4.3.
fn year(raw: &[char]) -> (year: Option<i32>)
    ensures
        match year {
            Some(year) => year_number(raw@) == Some(year as int),
            None => year_number(raw@) is None,
        },
{
    match parse_signed(raw, i32::MAX as i64) {
        Some(year) => {
            let year: i32 = year as i32;
            proof {
                if raw.len() <= 3 {
                    lemma_short_decimal(raw@);
                    lemma_short_decimal(raw@.drop_first());
                }
            }
            if raw.len() == 2 && year < 50 {
                Some(2000 + year)
            } else if raw.len() == 2 || raw.len() == 3 {
                Some(1900 + year)
            } else {
                Some(year)
            }
        },
        None => None,
    }
}

/// A `date-time`'s zone, as the seconds to subtract to reach UTC.
pub open spec fn zone_seconds(raw: Text) -> Option<int> {
    let bytes = encode_utf8(raw);
    let name = uppercase(raw);
    if bytes.len() >= 5 && (bytes[0] == 0x2b || bytes[0] == 0x2d) {
        match (digits_at(bytes, 1, 2), digits_at(bytes, 3, 2)) {
            (Some(hours), Some(minutes)) => {
                let offset = hours * 3_600 + minutes * 60;
                Some(
                    if bytes[0] == 0x2d {
                        -offset
                    } else {
                        offset
                    },
                )
            },
            _ => None,
        }
    } else if name == "UT"@ || name == "GMT"@ || name == "Z"@ {
        Some(0)
    } else if name == "EDT"@ {
        Some(-4 * 3_600)
    } else if name == "EST"@ || name == "CDT"@ {
        Some(-5 * 3_600)
    } else if name == "CST"@ || name == "MDT"@ {
        Some(-6 * 3_600)
    } else if name == "MST"@ || name == "PDT"@ {
        Some(-7 * 3_600)
    } else if name == "PST"@ {
        Some(-8 * 3_600)
    } else if encode_utf8(name).len() == 1 {
        Some(0)
    } else {
        None
    }
}

/// A `date-time`'s zone, as the seconds to subtract to reach UTC.
///
/// `-0000` states an unknown zone rather than UTC, and names the same
/// instant, which is all a key needs; so does every other single letter.
fn zone(raw: &str) -> (seconds: Option<i64>)
    ensures
        match seconds {
            Some(seconds) => zone_seconds(raw@) == Some(seconds as int) && -400_000 <= seconds
                <= 400_000,
            None => zone_seconds(raw@) is None,
        },
{
    let bytes = raw.as_bytes();
    if bytes.len() >= 5 && (bytes[0] == 0x2b || bytes[0] == 0x2d) {
        return match (digits(bytes, 1, 2), digits(bytes, 3, 2)) {
            (Some(hours), Some(minutes)) => {
                let offset: i64 = hours as i64 * 3_600 + minutes as i64 * 60;
                if bytes[0] == 0x2d {
                    Some(-offset)
                } else {
                    Some(offset)
                }
            },
            _ => None,
        };
    }
    let upper = to_upper(raw);
    let name = upper.as_str();
    if text_same(name, "UT") || text_same(name, "GMT") || text_same(name, "Z") {
        Some(0)
    } else if text_same(name, "EDT") {
        Some(-14_400)
    } else if text_same(name, "EST") || text_same(name, "CDT") {
        Some(-18_000)
    } else if text_same(name, "CST") || text_same(name, "MDT") {
        Some(-21_600)
    } else if text_same(name, "MST") || text_same(name, "PDT") {
        Some(-25_200)
    } else if text_same(name, "PST") {
        Some(-28_800)
    } else if name.as_bytes().len() == 1 {
        Some(0)
    } else {
        None
    }
}

/// Where a comment or a parameter starts, or the length.
pub open spec fn date_end(raw: Text) -> int {
    let comment = find_char(raw, '(');
    let parameter = find_char(raw, ';');
    if comment <= parameter {
        comment
    } else {
        parameter
    }
}

/// What follows the day of the week, where there is one.
pub open spec fn after_weekday(raw: Text) -> Text {
    match cut_once(raw, ',') {
        Some((_, rest)) => rest,
        None => raw,
    }
}

/// An unsigned number.
pub open spec fn unsigned_number(raw: Text) -> Option<int> {
    bounded_decimal(raw, false, 0, u32::MAX as int)
}

/// The wall clock a time of day states.
pub open spec fn clock_of(raw: Text) -> Option<(int, int, int)> {
    let parts = split_on(raw, ':');
    if parts.len() < 2 {
        None
    } else {
        match (
            unsigned_number(parts[0]),
            unsigned_number(parts[1]),
            if parts.len() > 2 {
                unsigned_number(parts[2])
            } else {
                Some(0)
            },
        ) {
            (Some(hour), Some(minute), Some(second)) => Some((hour, minute, second)),
            _ => None,
        }
    }
}

/// The instant a `date-time` names.
pub open spec fn date_instant(raw: Text) -> Option<Text> {
    let fields = words_of(after_weekday(raw.take(date_end(raw))));
    if fields.len() < 4 {
        None
    } else {
        let zone = zone_seconds(
            if fields.len() > 4 {
                fields[4]
            } else {
                "-0000"@
            },
        );
        match (
            (unsigned_number(fields[0]), month_number(fields[1]), year_number(fields[2])),
            (clock_of(fields[3]), zone),
        ) {
            (
                (Some(day), Some(month), Some(year)),
                (Some((hour, minute, second)), Some(offset)),
            ) => if day == 0 || day > 31 || hour > 24 || minute > 59 || second > 60 {
                None
            } else {
                Some(instant_text(unix_seconds(year, month, day, hour, minute, second) - offset))
            },
            _ => None,
        }
    }
}

/// An unsigned number.
fn unsigned(raw: &[char]) -> (value: Option<u32>)
    ensures
        match value {
            Some(value) => unsigned_number(raw@) == Some(value as int),
            None => unsigned_number(raw@) is None,
        },
{
    match parse_unsigned(raw, u32::MAX as u64) {
        Some(value) => Some(value as u32),
        None => None,
    }
}

/// The wall clock a time of day states.
fn clock(raw: &[char]) -> (clock: Option<(u32, u32, u32)>)
    ensures
        match clock {
            Some((hour, minute, second)) => clock_of(raw@) == Some(
                (hour as int, minute as int, second as int),
            ),
            None => clock_of(raw@) is None,
        },
{
    let parts = split(raw, ':');
    let ghost all = pieces(parts@);
    if parts.len() < 2 {
        return None;
    }
    proof {
        assert(all[0] == parts@[0]@ && all[1] == parts@[1]@);
        assert(parts.len() > 2 ==> all[2] == parts@[2]@);
    }
    let second = if parts.len() > 2 {
        unsigned(parts[2])
    } else {
        Some(0)
    };
    match (unsigned(parts[0]), unsigned(parts[1]), second) {
        (Some(hour), Some(minute), Some(second)) => Some((hour, minute, second)),
        _ => None,
    }
}

/// An RFC 5322 `date-time` as the RFC 3339 instant in UTC the summary
/// stores, or `None` when it does not parse: a date is never invented.
///
/// `[day-of-week ","] day month year hour ":" minute [":" second] zone`,
/// with the obsolete alphabetic zones RFC 5322 4.3 keeps.
pub fn instant(raw: &str) -> (text: Option<String>)
    ensures
        text.deep_view() == date_instant(raw@),
{
    let chars = chars_of(raw);
    let chars = chars.as_slice();
    let comment = find(chars, '(');
    let parameter = find(chars, ';');
    let end = if comment <= parameter {
        comment
    } else {
        parameter
    };
    let date = slice_subrange(chars, 0, end);
    assert(date@ =~= raw@.take(end as int));
    let rest = match split_once(date, ',') {
        Some((_, rest)) => rest,
        None => date,
    };
    let fields = words(rest);
    let ghost all = pieces(fields@);
    if fields.len() < 4 {
        return None;
    }
    proof {
        assert(all[0] == fields@[0]@ && all[1] == fields@[1]@);
        assert(all[2] == fields@[2]@ && all[3] == fields@[3]@);
        assert(fields.len() > 4 ==> all[4] == fields@[4]@);
    }
    let zone = if fields.len() > 4 {
        zone(text_of(fields[4]).as_str())
    } else {
        zone("-0000")
    };
    let (day, month, year) = match (unsigned(fields[0]), month(fields[1]), year(fields[2])) {
        (Some(day), Some(month), Some(year)) => (day, month, year),
        _ => {
            return None;
        },
    };
    let ((hour, minute, second), offset) = match (clock(fields[3]), zone) {
        (Some(clock), Some(offset)) => (clock, offset),
        _ => {
            return None;
        },
    };
    if day == 0 || day > 31 || hour > 24 || minute > 59 || second > 60 {
        return None;
    }
    Some(rfc3339(unix(year, month, day, hour, minute, second) - offset))
}

/// Where the blank line behind a header block starts, with the number of
/// bytes it and the line end before it take, from a place on.
pub open spec fn blank_line(entity: Seq<u8>, at: int) -> Option<(int, int)>
    decreases entity.len() - at,
{
    if at + 2 > entity.len() {
        None
    } else if entity[at] == 0x0a && entity[at + 1] == 0x0a {
        Some((at, 2))
    } else if at + 4 <= entity.len() && entity[at] == 0x0d && entity[at + 1] == 0x0a && entity[at
        + 2] == 0x0d && entity[at + 3] == 0x0a {
        Some((at, 4))
    } else {
        blank_line(entity, at + 1)
    }
}

proof fn lemma_blank_line(entity: Seq<u8>, at: int)
    requires
        0 <= at,
    ensures
        blank_line(entity, at) matches Some((found, len)) ==> at <= found && found + len
            <= entity.len() && (len == 2 || len == 4),
    decreases entity.len() - at,
{
    if at + 2 <= entity.len() {
        lemma_blank_line(entity, at + 1);
    }
}

/// A MIME entity's header block and its body.
pub open spec fn split_entity(entity: Seq<u8>) -> (Seq<u8>, Seq<u8>) {
    match blank_line(entity, 0) {
        Some((at, len)) => (entity.take(at + len / 2), entity.skip(at + len)),
        None => (entity, Seq::empty()),
    }
}

/// Splits a MIME entity into its header block and its body.
pub fn split_headers<'a>(entity: &'a [u8]) -> (cut: (&'a [u8], &'a [u8]))
    ensures
        (cut.0@, cut.1@) == split_entity(entity@),
        cut.1@.len() <= entity@.len(),
{
    let mut at: usize = 0;
    while at < entity.len() && entity.len() - at >= 2
        invariant
            at <= entity.len(),
            blank_line(entity@, 0) == blank_line(entity@, at as int),
        decreases entity.len() - at,
    {
        if entity[at] == 0x0a && entity[at + 1] == 0x0a {
            let head = slice_subrange(entity, 0, at + 1);
            let body = slice_subrange(entity, at + 2, entity.len());
            proof {
                assert(head@ =~= entity@.take(at + 1));
                assert(body@ =~= entity@.skip(at + 2));
            }
            return (head, body);
        }
        if entity.len() - at >= 4 && entity[at] == 0x0d && entity[at + 1] == 0x0a && entity[at + 2]
            == 0x0d && entity[at + 3] == 0x0a {
            let head = slice_subrange(entity, 0, at + 2);
            let body = slice_subrange(entity, at + 4, entity.len());
            proof {
                assert(head@ =~= entity@.take(at + 2));
                assert(body@ =~= entity@.skip(at + 4));
            }
            return (head, body);
        }
        at = at + 1;
    }
    let body = slice_subrange(entity, entity.len(), entity.len());
    assert(body@ =~= Seq::empty());
    (entity, body)
}

/// The header fields of logical lines, up to the first that is empty.
pub open spec fn fields_in(lines: Seq<Text>) -> Seq<(Text, Text)>
    decreases lines.len(),
{
    if lines.len() == 0 || lines[0].len() == 0 {
        Seq::empty()
    } else {
        (match cut_once(lines[0], ':') {
            Some((name, value)) => seq![(lowercase(trim(name)), trim(value))],
            None => Seq::empty(),
        }) + fields_in(lines.drop_first())
    }
}

/// A header block's fields.
pub open spec fn fields_of(block: Seq<u8>) -> Seq<(Text, Text)> {
    fields_in(unfolded(block, true))
}

/// A header block, unfolded, as `(lowercased name, value)` pairs.
pub fn header_fields(block: &[u8]) -> (fields: Vec<(String, String)>)
    ensures
        fields.deep_view() == fields_of(block@),
{
    let lines = unfold(block, true);
    let ghost all = lines.deep_view();
    let mut out: Vec<(String, String)> = Vec::new();
    let mut i: usize = 0;
    assert(all.skip(0) =~= all);
    assert(out.deep_view() + fields_in(all) =~= fields_in(all));
    while i < lines.len()
        invariant
            i <= lines.len(),
            all == lines.deep_view(),
            all == unfolded(block@, true),
            out.deep_view() + fields_in(all.skip(i as int)) == fields_in(all),
        decreases lines.len() - i,
    {
        let ghost rest = all.skip(i as int);
        let ghost before = out.deep_view();
        proof {
            assert(rest[0] == lines@[i as int]@);
            assert(rest.drop_first() =~= all.skip(i + 1));
        }
        let line = chars_of(lines[i].as_str());
        if line.len() == 0 {
            assert(out.deep_view() + fields_in(rest) =~= out.deep_view());
            return out;
        }
        if let Some((name, value)) = split_once(line.as_slice(), ':') {
            let name = to_lower(text_of(trimmed(name)).as_str());
            let value = text_of(trimmed(value));
            push_to(&mut out, (name, value));
        }
        assert(out.deep_view() + fields_in(all.skip(i + 1)) =~= before + fields_in(rest));
        i = i + 1;
    }
    assert(out.deep_view() + fields_in(all.skip(i as int)) =~= out.deep_view());
    out
}

/// What stands before a parameter, trimmed.
pub open spec fn before_params(value: Text) -> Text {
    trim(value.take(find_char(value, ';')))
}

/// Whether an entity states that it is an attachment.
pub open spec fn is_attached(headers: Seq<(Text, Text)>) -> bool {
    match first_value(headers, "content-disposition"@) {
        Some(value) => lower_ascii(before_params(value)) == lower_ascii("attachment"@),
        None => false,
    }
}

/// The boundary among a media type's parameters.
pub open spec fn boundary_in(params: Seq<Text>) -> Option<Text>
    decreases params.len(),
{
    if params.len() == 0 {
        None
    } else {
        match cut_once(params[0], '=') {
            Some((name, value)) if lower_ascii(trim(name)) == lower_ascii("boundary"@) => Some(
                unwrap_char(trim(value), '"'),
            ),
            _ => boundary_in(params.drop_first()),
        }
    }
}

/// The boundary an entity's parts are divided by, where it has parts.
pub open spec fn boundary_of(headers: Seq<(Text, Text)>) -> Option<Text> {
    match first_value(headers, "content-type"@) {
        Some(value) => {
            let params = split_on(value, ';');
            if "multipart/"@.is_prefix_of(lowercase(trim(params[0]))) {
                boundary_in(params.skip(1))
            } else {
                None
            }
        },
        None => None,
    }
}

/// Where the line a place stands on ends.
pub open spec fn line_end(body: Seq<u8>, at: int) -> int
    decreases body.len() - at,
{
    if at >= body.len() {
        body.len() as int
    } else if body[at] == 0x0a {
        at
    } else {
        line_end(body, at + 1)
    }
}

proof fn lemma_line_end(body: Seq<u8>, at: int)
    requires
        0 <= at <= body.len(),
    ensures
        at <= line_end(body, at) <= body.len(),
    decreases body.len() - at,
{
    if at < body.len() && body[at] != 0x0a {
        lemma_line_end(body, at + 1);
    }
}

/// A line of bytes without the carriage return it ends with.
pub open spec fn bare_line(line: Seq<u8>) -> Seq<u8> {
    if line.len() > 0 && line.last() == 0x0d {
        line.drop_last()
    } else {
        line
    }
}

/// The parts of a multipart body from a place on, `start` where one is
/// open.
pub open spec fn parts_from(
    body: Seq<u8>,
    delimiter: Seq<u8>,
    at: int,
    start: Option<int>,
) -> Seq<Seq<u8>>
    decreases body.len() + 1 - at,
    via parts_from_shrinks
{
    if at < 0 || at > body.len() {
        Seq::empty()
    } else {
        let end = line_end(body, at);
        let line = bare_line(body.subrange(at, end));
        if delimiter.is_prefix_of(line) {
            let closed = match start {
                Some(from) => seq![body.subrange(from, at)],
                None => Seq::empty(),
            };
            let rest = line.skip(delimiter.len() as int);
            if rest.len() >= 2 && rest[0] == 0x2d && rest[1] == 0x2d {
                closed
            } else {
                closed + parts_from(body, delimiter, end + 1, Some(end + 1))
            }
        } else {
            parts_from(body, delimiter, end + 1, start)
        }
    }
}

#[via_fn]
proof fn parts_from_shrinks(body: Seq<u8>, delimiter: Seq<u8>, at: int, start: Option<int>) {
    if 0 <= at <= body.len() {
        lemma_line_end(body, at);
    }
}

/// The parts of a multipart body, the preamble and epilogue dropped.
pub open spec fn parts_of(body: Seq<u8>, boundary: Text) -> Seq<Seq<u8>> {
    parts_from(body, encode_utf8("--"@ + boundary), 0, None)
}

/// Whether some part, or one under it, is an attachment. A part is shorter
/// than the body it stands in.
pub open spec fn any_attached(parts: Seq<Seq<u8>>, bound: nat) -> bool
    decreases bound, parts.len(),
{
    if parts.len() == 0 {
        false
    } else {
        let (headers, body) = split_entity(parts[0]);
        (body.len() < bound && attached(fields_of(headers), body)) || any_attached(
            parts.drop_first(),
            bound,
        )
    }
}

/// Whether an entity, or a part under it, is an attachment.
pub open spec fn attached(headers: Seq<(Text, Text)>, body: Seq<u8>) -> bool
    decreases body.len() + 1, 0nat,
{
    is_attached(headers) || match boundary_of(headers) {
        Some(boundary) => any_attached(parts_of(body, boundary), body.len()),
        None => false,
    }
}

/// Whether bytes start with others.
fn starts_with(bytes: &[u8], prefix: &[u8]) -> (yes: bool)
    ensures
        yes == prefix@.is_prefix_of(bytes@),
{
    if bytes.len() < prefix.len() {
        return false;
    }
    let mut i: usize = 0;
    while i < prefix.len()
        invariant
            i <= prefix.len() <= bytes.len(),
            forall|j: int| 0 <= j < i ==> prefix@[j] == bytes@[j],
        decreases prefix.len() - i,
    {
        if bytes[i] != prefix[i] {
            assert(bytes@.subrange(0, prefix@.len() as int)[i as int] != prefix@[i as int]);
            return false;
        }
        i = i + 1;
    }
    assert(prefix@ =~= bytes@.subrange(0, prefix@.len() as int));
    true
}

/// What each run of bytes holds.
pub open spec fn runs(parts: Seq<&[u8]>) -> Seq<Seq<u8>> {
    parts.map_values(|part: &[u8]| part@)
}

/// The parts of a multipart body, the preamble and epilogue dropped.
fn parts<'a>(body: &'a [u8], boundary: &str) -> (parts: Vec<&'a [u8]>)
    ensures
        runs(parts@) == parts_of(body@, boundary@),
        forall|i: int| 0 <= i < parts@.len() ==> (#[trigger] parts@[i])@.len() < body@.len(),
{
    let mut delimiter = "--".to_owned();
    delimiter.append(boundary);
    let delimiter = delimiter.as_str().as_bytes();
    let mut parts: Vec<&'a [u8]> = Vec::new();
    let mut start: Option<usize> = None;
    let mut at: usize = 0;
    assert(runs(parts@) + parts_of(body@, boundary@) =~= parts_of(body@, boundary@));
    loop
        invariant_except_break
            at <= body.len(),
            start matches Some(from) ==> 0 < from <= at,
            delimiter@ == encode_utf8("--"@ + boundary@),
            runs(parts@) + parts_from(body@, delimiter@, at as int, place_view(start)) == parts_of(
                body@,
                boundary@,
            ),
            forall|i: int| 0 <= i < parts@.len() ==> (#[trigger] parts@[i])@.len() < body@.len(),
        ensures
            runs(parts@) == parts_of(body@, boundary@),
            forall|i: int| 0 <= i < parts@.len() ==> (#[trigger] parts@[i])@.len() < body@.len(),
        decreases body.len() - at,
    {
        let mut end: usize = at;
        while end < body.len() && body[end] != 0x0a
            invariant
                at <= end <= body.len(),
                line_end(body@, at as int) == line_end(body@, end as int),
            decreases body.len() - end,
        {
            end = end + 1;
        }
        let line = slice_subrange(body, at, end);
        let line = if line.len() > 0 && line[line.len() - 1] == 0x0d {
            let cut = slice_subrange(line, 0, line.len() - 1);
            assert(cut@ =~= line@.drop_last());
            cut
        } else {
            line
        };
        let ghost before = runs(parts@);
        let ghost left = parts_from(body@, delimiter@, at as int, place_view(start));
        if starts_with(line, delimiter) {
            if let Some(from) = start {
                let part = slice_subrange(body, from, at);
                parts.push(part);
                assert(runs(parts@) =~= before.push(part@));
            }
            let n: usize = delimiter.len();
            let closing = line.len() - n >= 2 && line[n] == 0x2d && line[n + 1] == 0x2d;
            proof {
                let rest = line@.skip(n as int);
                assert(rest.len() >= 2 ==> rest[0] == line@[n as int] && rest[1] == line@[n + 1]);
            }
            if closing {
                assert(runs(parts@) =~= before + left);
                break;
            }
            proof {
                assert(runs(parts@) + parts_from(body@, delimiter@, end + 1, Some(end + 1))
                    =~= before + left);
                assert(end == body.len() ==> parts_from(body@, delimiter@, end + 1, Some(end + 1))
                    =~= Seq::empty());
            }
            if end == body.len() {
                assert(runs(parts@) + Seq::<Seq<u8>>::empty() =~= runs(parts@));
                break;
            }
            start = Some(end + 1);
        } else if end == body.len() {
            assert(parts_from(body@, delimiter@, end + 1, place_view(start)) =~= Seq::empty());
            assert(runs(parts@) + Seq::<Seq<u8>>::empty() =~= runs(parts@));
            break;
        }
        at = end + 1;
    }
    parts
}

/// A place, by value.
pub open spec fn place_view(place: Option<usize>) -> Option<int> {
    match place {
        Some(at) => Some(at as int),
        None => None,
    }
}

/// The boundary an entity's parts are divided by.
fn boundary(headers: &Vec<(String, String)>) -> (boundary: Option<String>)
    ensures
        boundary.deep_view() == boundary_of(headers.deep_view()),
{
    let value = match first_value_of(headers, "content-type") {
        Some(value) => value,
        None => {
            return None;
        },
    };
    let chars = chars_of(value);
    let params = split(chars.as_slice(), ';');
    let ghost all = pieces(params@);
    assert(all[0] == params@[0]@);
    let media = to_lower(text_of(trimmed(params[0])).as_str());
    let media = chars_of(media.as_str());
    let wanted = chars_of("multipart/");
    if media.len() < wanted.len() {
        return None;
    }
    let head = slice_subrange(media.as_slice(), 0, wanted.len());
    if !spells(head, "multipart/") {
        return None;
    }
    let mut i: usize = 1;
    let ghost rest = all.skip(1);
    assert(rest.skip(0) =~= rest);
    while i < params.len()
        invariant
            1 <= i <= params.len(),
            all == pieces(params@),
            rest == all.skip(1),
            boundary_of(headers.deep_view()) == boundary_in(rest),
            boundary_in(rest) == boundary_in(rest.skip(i - 1)),
        decreases params.len() - i,
    {
        let param = params[i];
        proof {
            assert(rest.skip(i - 1)[0] == param@);
            assert(rest.skip(i - 1).drop_first() =~= rest.skip(i as int));
        }
        if let Some((name, value)) = split_once(param, '=') {
            if spells_any_case(trimmed(name), "boundary") {
                return Some(text_of(unwrapped(trimmed(value), '"')));
            }
        }
        i = i + 1;
    }
    None
}

/// Whether the entity, or a part under it, carries `Content-Disposition:
/// attachment`, walking multipart bodies by their boundary.
pub fn has_attachment(headers: &Vec<(String, String)>, body: &[u8]) -> (yes: bool)
    ensures
        yes == attached(headers.deep_view(), body@),
    decreases body.len(),
{
    let disposed = match first_value_of(headers, "content-disposition") {
        Some(value) => {
            let chars = chars_of(value);
            let chars = chars.as_slice();
            let end = find(chars, ';');
            let kind = slice_subrange(chars, 0, end);
            assert(kind@ =~= chars@.take(end as int));
            spells_any_case(trimmed(kind), "attachment")
        },
        None => false,
    };
    if disposed {
        return true;
    }
    let boundary = match boundary(headers) {
        Some(boundary) => boundary,
        None => {
            return false;
        },
    };
    let parts = parts(body, boundary.as_str());
    let ghost all = runs(parts@);
    let mut i: usize = 0;
    assert(all.skip(0) =~= all);
    while i < parts.len()
        invariant
            i <= parts.len(),
            all == runs(parts@),
            attached(headers.deep_view(), body@) == any_attached(
                all.skip(i as int),
                body@.len(),
            ),
            forall|j: int| 0 <= j < parts@.len() ==> (#[trigger] parts@[j])@.len() < body@.len(),
        decreases parts.len() - i,
    {
        let part = parts[i];
        proof {
            assert(all.skip(i as int)[0] == part@);
            assert(all.skip(i as int).drop_first() =~= all.skip(i + 1));
        }
        let (inner, rest) = split_headers(part);
        if has_attachment(&header_fields(inner), rest) {
            return true;
        }
        i = i + 1;
    }
    false
}

/// The first occurrence of a header field.
pub open spec fn field_of(headers: Seq<(Text, Text)>, name: Text) -> Option<Text> {
    first_value(headers, name)
}

/// The addresses of a header field.
pub open spec fn field_addresses(headers: Seq<(Text, Text)>, name: Text) -> Seq<AddressView> {
    match field_of(headers, name) {
        Some(value) => addresses_of(value),
        None => Seq::empty(),
    }
}

/// The summary of a message's header fields and its body.
pub open spec fn mail_summary(
    headers: Seq<(Text, Text)>,
    rest: Seq<u8>,
    size: u64,
) -> MailSummaryView {
    let from = field_addresses(headers, "from"@);
    MailSummaryView {
        message_id: match field_of(headers, "message-id"@) {
            Some(value) => bare_id(value),
            None => None,
        },
        in_reply_to: match field_of(headers, "in-reply-to"@) {
            Some(value) => ids_of(value),
            None => Seq::empty(),
        },
        subject: match field_of(headers, "subject"@) {
            Some(value) => decoded(value),
            None => Text::empty(),
        },
        sender: if from.len() > 0 {
            Some(from[0].address)
        } else {
            None
        },
        sender_name: if from.len() > 0 {
            from[0].name
        } else {
            None
        },
        date: match field_of(headers, "date"@) {
            Some(value) => date_instant(value),
            None => None,
        },
        size: Some(size),
        attachment: Some(attached(headers, rest)),
        from,
        to: field_addresses(headers, "to"@),
        cc: field_addresses(headers, "cc"@),
        bcc: field_addresses(headers, "bcc"@),
    }
}

/// What a message derives to.
pub open spec fn mail_derivation(body: Seq<u8>) -> DerivationView {
    let (headers, rest) = split_entity(body);
    mail_summary(fields_of(headers), rest, body.len() as u64).derivation()
}

/// The addresses of a header field.
fn addresses_under(headers: &Vec<(String, String)>, name: &str) -> (list: Vec<PimdirAddress>)
    ensures
        list.deep_view() == field_addresses(headers.deep_view(), name@),
{
    match first_value_of(headers, name) {
        Some(value) => addresses(value),
        None => {
            let none: Vec<PimdirAddress> = Vec::new();
            assert(none.deep_view() =~= Seq::empty());
            none
        },
    }
}

/// Reads the summary of a message's header fields and its body.
fn summarize(headers: &Vec<(String, String)>, rest: &[u8], size: u64) -> (summary:
    PimdirMailSummary)
    ensures
        summary@ == mail_summary(headers.deep_view(), rest@, size),
{
    let from = addresses_under(headers, "from");
    assert(from.len() > 0 ==> from.deep_view()[0] == from@[0]@);
    let sender = if from.len() > 0 {
        Some(from[0].address.clone())
    } else {
        None
    };
    let sender_name = if from.len() > 0 {
        from[0].name.clone()
    } else {
        None
    };
    let summary = PimdirMailSummary {
        message_id: match first_value_of(headers, "message-id") {
            Some(value) => {
                let chars = chars_of(value);
                strip_angles(chars.as_slice())
            },
            None => None,
        },
        in_reply_to: match first_value_of(headers, "in-reply-to") {
            Some(value) => message_ids(value),
            None => Vec::new(),
        },
        subject: match first_value_of(headers, "subject") {
            Some(value) => decode(value),
            None => String::new(),
        },
        sender,
        sender_name,
        date: match first_value_of(headers, "date") {
            Some(value) => instant(value),
            None => None,
        },
        size: Some(size),
        attachment: Some(has_attachment(headers, rest)),
        from,
        to: addresses_under(headers, "to"),
        cc: addresses_under(headers, "cc"),
        bcc: addresses_under(headers, "bcc"),
    };
    assert(summary@ =~= mail_summary(headers.deep_view(), rest@, size));
    summary
}

/// Derives a message's key, summary and sort key from its bytes.
pub fn derive(body: &[u8]) -> (derivation: PimdirDerivation)
    ensures
        derivation@ == mail_derivation(body@),
{
    let (headers, rest) = split_headers(body);
    let headers = header_fields(headers);
    summarize(&headers, rest, body.len() as u64).derivation()
}

/// Whether the characters of a text at a place spell a number below a
/// hundred as two decimal digits.
pub open spec fn spells_pair(text: Text, at: int, n: int) -> bool {
    &&& 0 <= n < 100
    &&& 0 <= at
    &&& at + 2 <= text.len()
    &&& text[at] as int == 0x30 + n / 10
    &&& text[at + 1] as int == 0x30 + n % 10
}

proof fn lemma_pair_of_digits(text: Text, at: int, n: int)
    requires
        is_ascii_chars(text),
        spells_pair(text, at, n),
    ensures
        digits_at(encode_utf8(text), at, 2) == Some(n),
{
    is_ascii_chars_encode_utf8(text);
    let bytes = encode_utf8(text);
    assert(bytes[at] == text[at] as u8 && bytes[at + 1] == text[at + 1] as u8);
    assert(digits_at(bytes, at, 0) == Some(0int));
    assert(digits_at(bytes, at, 1) == Some(n / 10));
}

/// The sign of a message's zone counts: `+hhmm` is that many hours and
/// minutes ahead of UTC and `-hhmm` as many behind.
pub proof fn lemma_the_sign_of_a_zone_counts(raw: Text, hours: int, minutes: int)
    requires
        raw.len() == 5,
        spells_pair(raw, 1, hours),
        spells_pair(raw, 3, minutes),
    ensures
        raw[0] == '+' ==> zone_seconds(raw) == Some(hours * 3_600 + minutes * 60),
        raw[0] == '-' ==> zone_seconds(raw) == Some(-(hours * 3_600 + minutes * 60)),
{
    if raw[0] == '+' || raw[0] == '-' {
        assert(is_ascii_chars(raw)) by {
            assert forall|i: int| 0 <= i < raw.len() implies '\0' <= #[trigger] raw[i]
                <= '\u{7f}' by {
                assert(i == 0 || i == 1 || i == 2 || i == 3 || i == 4);
            }
        }
        is_ascii_chars_encode_utf8(raw);
        assert(encode_utf8(raw)[0] == raw[0] as u8);
        lemma_pair_of_digits(raw, 1, hours);
        lemma_pair_of_digits(raw, 3, minutes);
    }
}

/// The named zones of North America lie whole hours behind UTC, each an
/// hour further west of the one before, and daylight time is one hour
/// ahead of the standard time of its zone.
pub proof fn lemma_a_named_zone_is_west_of_utc(raw: Text, hours: int)
    requires
        raw.len() == 3,
        is_ascii_chars(raw),
        raw[0] != '+' && raw[0] != '-',
        hours == if uppercase(raw)[0] == 'E' {
            5int
        } else if uppercase(raw)[0] == 'C' {
            6
        } else if uppercase(raw)[0] == 'M' {
            7
        } else {
            8
        },
    ensures
        uppercase(raw) == "EST"@ || uppercase(raw) == "CST"@ || uppercase(raw) == "MST"@
            || uppercase(raw) == "PST"@ ==> zone_seconds(raw) == Some(-(hours * 3_600)),
        uppercase(raw) == "EDT"@ || uppercase(raw) == "CDT"@ || uppercase(raw) == "MDT"@
            || uppercase(raw) == "PDT"@ ==> zone_seconds(raw) == Some(-(hours * 3_600) + 3_600),
        uppercase(raw) == "GMT"@ ==> zone_seconds(raw) == Some(0int),
{
    is_ascii_chars_encode_utf8(raw);
    assert(encode_utf8(raw)[0] == raw[0] as u8);
    lemma_zone_names();
}

proof fn lemma_zone_names()
    ensures
        "UT"@.len() == 2,
        "Z"@.len() == 1,
        "GMT"@ == seq!['G', 'M', 'T'],
        "EDT"@ == seq!['E', 'D', 'T'],
        "EST"@ == seq!['E', 'S', 'T'],
        "CDT"@ == seq!['C', 'D', 'T'],
        "CST"@ == seq!['C', 'S', 'T'],
        "MDT"@ == seq!['M', 'D', 'T'],
        "MST"@ == seq!['M', 'S', 'T'],
        "PDT"@ == seq!['P', 'D', 'T'],
        "PST"@ == seq!['P', 'S', 'T'],
{
    reveal_strlit("UT");
    reveal_strlit("Z");
    reveal_strlit("GMT");
    reveal_strlit("EDT");
    reveal_strlit("EST");
    reveal_strlit("CDT");
    reveal_strlit("CST");
    reveal_strlit("MDT");
    reveal_strlit("MST");
    reveal_strlit("PDT");
    reveal_strlit("PST");
}

/// The fields of a date, behind the day of the week and before a comment
/// or a parameter.
pub open spec fn date_fields(raw: Text) -> Seq<Text> {
    words_of(after_weekday(raw.take(date_end(raw))))
}

/// A date names the instant its wall time is under its zone: as much
/// before the same wall time read as UTC as the zone is ahead of it. One
/// without a zone is read as UTC.
pub proof fn lemma_a_date_is_read_to_utc(
    raw: Text,
    day: int,
    month: int,
    year: int,
    hour: int,
    minute: int,
    second: int,
    offset: int,
)
    requires
        date_fields(raw).len() >= 4,
        unsigned_number(date_fields(raw)[0]) == Some(day),
        month_number(date_fields(raw)[1]) == Some(month),
        year_number(date_fields(raw)[2]) == Some(year),
        clock_of(date_fields(raw)[3]) == Some((hour, minute, second)),
        date_fields(raw).len() > 4 ==> zone_seconds(date_fields(raw)[4]) == Some(offset),
        date_fields(raw).len() == 4 ==> offset == 0,
    ensures
        1 <= day <= 31 && hour <= 24 && minute <= 59 && second <= 60 ==> date_instant(raw) == Some(
            instant_text(unix_seconds(year, month, day, hour, minute, second) - offset),
        ),
        day < 1 || day > 31 || hour > 24 || minute > 59 || second > 60 ==> date_instant(raw)
            is None,
{
    reveal_strlit("-0000");
    assert("-0000"@ =~= seq!['-', '0', '0', '0', '0']);
    lemma_the_sign_of_a_zone_counts("-0000"@, 0, 0);
}

/// The months count on from January.
pub proof fn lemma_the_months_count_on(name: Text)
    ensures
        lowercase(name) == "jan"@ ==> month_number(name) == Some(1int),
        lowercase(name) == "feb"@ ==> month_number(name) == Some(2int),
        lowercase(name) == "mar"@ ==> month_number(name) == Some(3int),
        lowercase(name) == "apr"@ ==> month_number(name) == Some(4int),
        lowercase(name) == "may"@ ==> month_number(name) == Some(5int),
        lowercase(name) == "jun"@ ==> month_number(name) == Some(6int),
        lowercase(name) == "jul"@ ==> month_number(name) == Some(7int),
        lowercase(name) == "aug"@ ==> month_number(name) == Some(8int),
        lowercase(name) == "sep"@ ==> month_number(name) == Some(9int),
        lowercase(name) == "oct"@ ==> month_number(name) == Some(10int),
        lowercase(name) == "nov"@ ==> month_number(name) == Some(11int),
        lowercase(name) == "dec"@ ==> month_number(name) == Some(12int),
{
    reveal_strlit("jan");
    reveal_strlit("feb");
    reveal_strlit("mar");
    reveal_strlit("apr");
    reveal_strlit("may");
    reveal_strlit("jun");
    reveal_strlit("jul");
    reveal_strlit("aug");
    reveal_strlit("sep");
    reveal_strlit("oct");
    reveal_strlit("nov");
    reveal_strlit("dec");
    assert("jan"@ =~= seq!['j', 'a', 'n'] && "feb"@ =~= seq!['f', 'e', 'b'] && "mar"@ =~= seq![
        'm',
        'a',
        'r',
    ] && "apr"@ =~= seq!['a', 'p', 'r'] && "may"@ =~= seq!['m', 'a', 'y'] && "jun"@ =~= seq![
        'j',
        'u',
        'n',
    ] && "jul"@ =~= seq!['j', 'u', 'l'] && "aug"@ =~= seq!['a', 'u', 'g'] && "sep"@ =~= seq![
        's',
        'e',
        'p',
    ] && "oct"@ =~= seq!['o', 'c', 't'] && "nov"@ =~= seq!['n', 'o', 'v'] && "dec"@ =~= seq![
        'd',
        'e',
        'c',
    ]);
}

/// A year of two digits lies within fifty years of the turn of the
/// century, one of three counts from 1900, and any other is itself.
pub proof fn lemma_a_short_year_is_near_the_century(raw: Text, n: int)
    requires
        bounded_decimal(raw, true, i32::MIN as int, i32::MAX as int) == Some(n),
        raw.len() == 2 ==> 0 <= n < 100,
    ensures
        raw.len() == 2 ==> (year_number(raw) matches Some(year) && 1950 <= year < 2050 && year % 100
            == n),
        raw.len() == 3 ==> year_number(raw) == Some(1900 + n),
        raw.len() != 2 && raw.len() != 3 ==> year_number(raw) == Some(n),
{
}

/// A message id is what stands between its angle brackets, white space
/// around it dropped, and an empty one is none.
pub proof fn lemma_an_id_loses_its_brackets(id: Text)
    requires
        id.len() > 0,
        !crate::scan::is_white(id[0]),
        !crate::scan::is_white(id.last()),
        id[0] != '<',
    ensures
        bare_id(seq!['<'] + id + seq!['>']) == Some(id),
        bare_id(id) == Some(id),
        bare_id(seq!['<', '>']) is None,
        bare_id(Text::empty()) is None,
{
    let raw = seq!['<'] + id + seq!['>'];
    assert(trim(raw) == raw);
    assert(raw.subrange(1, raw.len() - 1) =~= id);
    assert(trim(id) == id);
    let none = seq!['<', '>'];
    assert(trim(none) == none);
    assert(none.subrange(1, 1) =~= Text::empty());
}

/// Base64 is by six bits: a group of four characters holds the bits of
/// its three bytes in order.
pub proof fn lemma_four_sextets_are_three_bytes(values: Seq<int>, g: int)
    requires
        forall|i: int| 0 <= i < values.len() ==> 0 <= #[trigger] values[i] < 64,
        0 <= g,
        4 * g + 4 <= values.len(),
    ensures
        ({
            let bytes = packed(values);
            &&& 3 * g + 3 <= bytes.len()
            &&& bytes[3 * g] * 65_536 + bytes[3 * g + 1] * 256 + bytes[3 * g + 2] == values[4 * g]
                * 262_144 + values[4 * g + 1] * 4_096 + values[4 * g + 2] * 64 + values[4 * g + 3]
        }),
{
    let a = values[4 * g];
    let b = values[4 * g + 1];
    let c = values[4 * g + 2];
    let d = values[4 * g + 3];
    assert(0 <= a < 64 && 0 <= b < 64 && 0 <= c < 64 && 0 <= d < 64);
    assert((3 * g) / 3 == g && (3 * g + 1) / 3 == g && (3 * g + 2) / 3 == g);
    assert((3 * g) % 3 == 0 && (3 * g + 1) % 3 == 1 && (3 * g + 2) % 3 == 2);
    assert(packed_byte(values, 3 * g) == a * 4 + b / 16);
    assert(packed_byte(values, 3 * g + 1) == b % 16 * 16 + c / 4);
    assert(packed_byte(values, 3 * g + 2) == c % 4 * 64 + d);
}

/// A hexadecimal pair is sixteen times its first digit and its second,
/// in either letter case.
pub proof fn lemma_a_hexadecimal_pair(high: u8, low: u8, n: int)
    requires
        0 <= n < 256,
        is_hex_digit_of(high, n / 16),
        is_hex_digit_of(low, n % 16),
    ensures
        hex_pair_value(high, low) == Some(n as u8),
{
}

/// Whether a byte is a hexadecimal digit of a number below sixteen.
pub open spec fn is_hex_digit_of(byte: u8, n: int) -> bool {
    &&& 0 <= n < 16
    &&& n < 10 ==> byte == 0x30 + n
    &&& n >= 10 ==> (byte == 0x41 + (n - 10) || byte == 0x61 + (n - 10))
}

/// Quoted-printable spells a byte by its hexadecimal pair behind an `=`, a
/// space of a header by an underscore, and any other byte by itself.
pub proof fn lemma_quoted_printable_by_the_byte(high: u8, low: u8, n: int, rest: Seq<u8>, header: bool)
    requires
        0 <= n < 256,
        is_hex_digit_of(high, n / 16),
        is_hex_digit_of(low, n % 16),
    ensures
        quoted_printable_bytes(seq![0x3du8, high, low] + rest, header) == seq![n as u8]
            + quoted_printable_bytes(rest, header),
        quoted_printable_bytes(seq![0x5fu8] + rest, true) == seq![0x20u8]
            + quoted_printable_bytes(rest, true),
        quoted_printable_bytes(seq![0x5fu8] + rest, false) == seq![0x5fu8]
            + quoted_printable_bytes(rest, false),
        n != 0x3d && n != 0x5f ==> quoted_printable_bytes(seq![n as u8] + rest, header) == seq![
            n as u8,
        ] + quoted_printable_bytes(rest, header),
{
    lemma_a_hexadecimal_pair(high, low, n);
    assert((seq![0x3du8, high, low] + rest).skip(3) =~= rest);
    assert((seq![0x5fu8] + rest).drop_first() =~= rest);
    assert((seq![n as u8] + rest).drop_first() =~= rest);
}

/// A header without an encoded word is itself, the white space around it
/// dropped.
pub proof fn lemma_a_plain_header_is_itself(raw: Text)
    requires
        forall|i: int| 0 <= i < raw.len() - 1 && #[trigger] raw[i] == '=' ==> raw[i + 1] != '?',
    ensures
        decoded(raw) == trim(raw),
{
    lemma_no_pair(raw, '=', '?');
}

proof fn lemma_no_pair(text: Text, a: char, b: char)
    requires
        forall|i: int| 0 <= i < text.len() - 1 && #[trigger] text[i] == a ==> text[i + 1] != b,
    ensures
        find_pair(text, a, b) >= text.len(),
    decreases text.len(),
{
    if text.len() >= 1 {
        let rest = text.drop_first();
        assert forall|i: int| 0 <= i < rest.len() - 1 && #[trigger] rest[i] == a implies rest[i + 1]
            != b by {
            assert(rest[i] == text[i + 1]);
            assert(rest[i + 1] == text[i + 2]);
        }
        lemma_no_pair(rest, a, b);
    }
}

/// Whether a character stands for itself in an address list.
pub open spec fn is_plain(c: char) -> bool {
    c != '"' && c != '(' && c != ')' && c != '<' && c != '>' && c != ':' && c != ',' && c != ';'
}

/// The mailboxes of a list are parted by its commas, and by its
/// semicolons.
pub proof fn lemma_a_comma_parts_two_mailboxes(a: Text, b: Text, comma: char)
    requires
        comma == ',' || comma == ';',
        forall|i: int| 0 <= i < a.len() ==> is_plain(#[trigger] a[i]),
        forall|i: int| 0 <= i < b.len() ==> is_plain(#[trigger] b[i]),
    ensures
        mailboxes_of(a + seq![comma] + b) == not_blank(seq![a, b]),
{
    let none = Text::empty();
    let list = a + seq![comma] + b;
    lemma_plain_characters_are_kept(Text::empty(), a);
    assert(none + a =~= a);
    assert(a.push(comma).drop_last() =~= a);
    lemma_plain_characters_are_kept(a.push(comma), b);
    assert(a.push(comma) + b =~= list);
    assert(Text::empty() + b =~= b);
    assert(Text::empty() + a =~= a);
    assert(list_of(list).out =~= seq![a]);
    assert(list_of(list).out.push(b) =~= seq![a, b]);
}

proof fn lemma_plain_characters_are_kept(before: Text, more: Text)
    requires
        forall|i: int| 0 <= i < more.len() ==> is_plain(#[trigger] more[i]),
        !list_of(before).quoted,
        list_of(before).comment == 0,
        !list_of(before).escaped,
    ensures
        list_of(before + more) == (ListState {
            current: list_of(before).current + more,
            ..list_of(before)
        }),
    decreases more.len(),
{
    if more.len() == 0 {
        assert(before + more =~= before);
        assert(list_of(before).current + more =~= list_of(before).current);
    } else {
        let rest = more.drop_last();
        assert forall|i: int| 0 <= i < rest.len() implies is_plain(#[trigger] rest[i]) by {
            assert(rest[i] == more[i]);
        }
        lemma_plain_characters_are_kept(before, rest);
        assert((before + more).drop_last() =~= before + rest);
        assert((before + more).last() == more.last());
        assert(is_plain(more[more.len() - 1]));
        assert((list_of(before).current + rest).push(more.last()) =~= list_of(before).current
            + more);
    }
}

/// A separator inside angle brackets or quotes parts nothing.
pub proof fn lemma_a_quoted_comma_parts_nothing(state: ListState, c: char)
    requires
        c == ',' || c == ';',
        state.quoted || state.angled || state.comment > 0 || state.escaped,
    ensures
        list_step(state, c).out == state.out,
{
}

/// A mailbox names the address in its angle brackets, with the name in
/// front of them.
pub proof fn lemma_a_mailbox_names_its_address(name: Text, address: Text)
    requires
        name.len() > 0 && !crate::scan::is_white(name[0]),
        forall|i: int| 0 <= i < name.len() ==> #[trigger] name[i] != '<' && name[i] != '>',
        forall|i: int| 0 <= i < address.len() ==> #[trigger] address[i] != '<' && address[i] != '>',
        canonical_address(address).len() > 0,
    ensures
        mailbox_address(name + seq!['<'] + address + seq!['>']) matches Some(found)
            && found.address == canonical_address(address) && found.name == display_name(name),
{
    let mailbox = name + seq!['<'] + address + seq!['>'];
    assert(mailbox[0] == name[0]);
    assert(trim(mailbox) == mailbox);
    crate::scan::lemma_find_char_at(mailbox, '<', name.len() as int);
    assert(mailbox.last() == '>');
    assert(rfind_char(mailbox, '>') == Some(mailbox.len() - 1));
    assert(mailbox.take(name.len() as int) =~= name);
    assert(mailbox.subrange(name.len() as int + 1, mailbox.len() - 1) =~= address);
}

/// An entity's header block ends with the line before its first blank
/// line, and its body starts behind that.
pub proof fn lemma_the_body_starts_behind_the_blank_line(head: Seq<u8>, body: Seq<u8>)
    requires
        forall|i: int| 0 <= i < head.len() ==> #[trigger] head[i] != 0x0a,
    ensures
        split_entity(head + seq![0x0du8, 0x0a, 0x0d, 0x0a] + body) == (
            head + seq![0x0du8, 0x0a],
            body,
        ),
        split_entity(head + seq![0x0au8, 0x0a] + body) == (head.push(0x0a), body),
        split_entity(head) == (head, Seq::<u8>::empty()),
{
    let crlf = head + seq![0x0du8, 0x0a, 0x0d, 0x0a] + body;
    let lf = head + seq![0x0au8, 0x0a] + body;
    lemma_no_blank_line_before(crlf, 0, head.len() as int);
    lemma_no_blank_line_before(lf, 0, head.len() as int);
    lemma_no_blank_line_before(head, 0, head.len() as int);
    assert(crlf.take(head.len() as int + 2) =~= head + seq![0x0du8, 0x0a]);
    assert(crlf.skip(head.len() as int + 4) =~= body);
    assert(lf.take(head.len() as int + 1) =~= head.push(0x0a));
    assert(lf.skip(head.len() as int + 2) =~= body);
    assert(blank_line(head, head.len() as int) is None);
}

proof fn lemma_no_blank_line_before(entity: Seq<u8>, at: int, to: int)
    requires
        0 <= at <= to <= entity.len(),
        forall|i: int| at <= i < to ==> #[trigger] entity[i] != 0x0a,
        to < entity.len() ==> (entity[to] == 0x0a || entity[to] == 0x0d),
        to + 1 < entity.len() && entity[to] == 0x0a ==> entity[to + 1] == 0x0a,
    ensures
        blank_line(entity, at) == blank_line(entity, to),
    decreases to - at,
{
    if at < to {
        assert(entity[at] != 0x0a);
        if at + 4 <= entity.len() && entity[at] == 0x0d && entity[at + 1] == 0x0a {
            assert(at + 1 == to);
        }
        if at + 2 > entity.len() {
            assert(blank_line(entity, to) is None);
        } else {
            lemma_no_blank_line_before(entity, at + 1, to);
        }
    }
}

/// An entity carries an attachment where one of its parts is one, at
/// whatever depth, and where it is one itself.
pub proof fn lemma_an_attached_part_is_an_attachment(parts: Seq<Seq<u8>>, bound: nat, i: int)
    requires
        0 <= i < parts.len(),
        split_entity(parts[i]).1.len() < bound,
        is_attached(fields_of(split_entity(parts[i]).0)) || attached(
            fields_of(split_entity(parts[i]).0),
            split_entity(parts[i]).1,
        ),
    ensures
        any_attached(parts, bound),
    decreases parts.len(),
{
    let (headers, body) = split_entity(parts[i]);
    assert(attached(fields_of(headers), body));
    if i > 0 {
        assert(parts.drop_first()[i - 1] == parts[i]);
        lemma_an_attached_part_is_an_attachment(parts.drop_first(), bound, i - 1);
    }
}

/// An entity none of whose parts is an attachment carries none, unless it
/// is one.
pub proof fn lemma_no_attached_part_is_no_attachment(parts: Seq<Seq<u8>>, bound: nat)
    requires
        forall|i: int|
            #![trigger parts[i]]
            0 <= i < parts.len() ==> !attached(
                fields_of(split_entity(parts[i]).0),
                split_entity(parts[i]).1,
            ),
    ensures
        !any_attached(parts, bound),
    decreases parts.len(),
{
    if parts.len() > 0 {
        let rest = parts.drop_first();
        assert forall|i: int| #![trigger rest[i]] 0 <= i < rest.len() implies !attached(
            fields_of(split_entity(rest[i]).0),
            split_entity(rest[i]).1,
        ) by {
            assert(rest[i] == parts[i + 1]);
        }
        lemma_no_attached_part_is_no_attachment(rest, bound);
    }
}

/// Whether a header field is the first of its name.
pub open spec fn heads(headers: Seq<(Text, Text)>, i: int) -> bool {
    &&& 0 <= i < headers.len()
    &&& forall|j: int| 0 <= j < i ==> (#[trigger] headers[j]).0 != headers[i].0
}

/// A message's summary tells what the first field of each name says.
pub proof fn lemma_a_message_tells_its_fields(
    headers: Seq<(Text, Text)>,
    rest: Seq<u8>,
    size: u64,
    i: int,
)
    requires
        heads(headers, i),
    ensures
        ({
            let (name, value) = headers[i];
            let mail = mail_summary(headers, rest, size);
            &&& name == "message-id"@ ==> mail.message_id == bare_id(value)
            &&& name == "in-reply-to"@ ==> mail.in_reply_to == ids_of(value)
            &&& name == "subject"@ ==> mail.subject == decoded(value)
            &&& name == "from"@ ==> mail.from == addresses_of(value)
            &&& name == "from"@ && addresses_of(value).len() > 0 ==> mail.sender == Some(
                addresses_of(value)[0].address,
            ) && mail.sender_name == addresses_of(value)[0].name
            &&& name == "from"@ && addresses_of(value).len() == 0 ==> mail.sender is None
                && mail.sender_name is None
            &&& name == "date"@ ==> mail.date == date_instant(value)
            &&& name == "to"@ ==> mail.to == addresses_of(value)
            &&& name == "cc"@ ==> mail.cc == addresses_of(value)
            &&& name == "bcc"@ ==> mail.bcc == addresses_of(value)
            &&& mail.size == Some(size)
            &&& is_attached(headers) ==> mail.attachment == Some(true)
        }),
{
    lemma_the_first_value_of_a_name(headers, headers[i].0, i);
}

/// What no field of a message says, its summary does not tell.
pub proof fn lemma_a_message_tells_nothing_else(
    headers: Seq<(Text, Text)>,
    rest: Seq<u8>,
    size: u64,
    name: Text,
)
    requires
        forall|i: int| 0 <= i < headers.len() ==> (#[trigger] headers[i]).0 != name,
    ensures
        ({
            let mail = mail_summary(headers, rest, size);
            &&& name == "message-id"@ ==> mail.message_id is None
            &&& name == "in-reply-to"@ ==> mail.in_reply_to.len() == 0
            &&& name == "subject"@ ==> mail.subject.len() == 0
            &&& name == "from"@ ==> mail.from.len() == 0 && mail.sender is None && mail.sender_name
                is None
            &&& name == "date"@ ==> mail.date is None
            &&& name == "to"@ ==> mail.to.len() == 0
            &&& name == "cc"@ ==> mail.cc.len() == 0
            &&& name == "bcc"@ ==> mail.bcc.len() == 0
        }),
{
    lemma_the_first_value_of_a_name(headers, name, headers.len() as int);
}

/// A message is filed under its id where it has one, and any other under
/// its subject, date and sender, so that two without an id are filed
/// together only where those spell alike; it sorts by its date.
pub proof fn lemma_a_message_is_filed_under_its_id(mail: MailSummaryView, date: Text, sender: Text)
    ensures
        mail.message_id matches Some(id) ==> mail.derivation().link_id == id,
        mail.message_id is None && mail.date == Some(date) && mail.sender == Some(sender)
            ==> mail.derivation().link_id == "alt:"@ + mail.subject + "|"@ + date + "|"@ + sender,
        mail.date == Some(date) ==> mail.derivation().sort_key == date,
        mail.date is None ==> mail.derivation().sort_key.len() == 0,
        mail.derivation().summary == Some(SummaryView::Mail(mail)),
{
}

/// The characters of base64 count on through the capital letters, the
/// small ones and the digits to the plus and the slash.
pub proof fn lemma_the_base64_alphabet_counts_on(n: int, c: char)
    requires
        sextet(c) == Some(n),
    ensures
        0 <= n < 64,
        n == 0 <==> c == 'A',
        n == 26 <==> c == 'a',
        n == 52 <==> c == '0',
        n == 62 <==> c == '+',
        n == 63 <==> c == '/',
        0 <= n < 26 ==> c as int == 'A' as int + n,
        26 <= n < 52 ==> c as int == 'a' as int + (n - 26),
        52 <= n < 62 ==> c as int == '0' as int + (n - 52),
{
}

/// Latin bytes are their own code points, the western Windows set differs
/// from them only in its row of signs, and any other charset is read as
/// UTF-8.
pub proof fn lemma_a_charset_decides_its_text(charset: Text, bytes: Seq<u8>, i: int)
    requires
        0 <= i < bytes.len(),
    ensures
        ({
            let name = charset_name(charset);
            let latin = name == "iso-8859-1"@ || name == "latin1"@ || name == "us-ascii"@ || name
                == "ascii"@;
            let western = name == "windows-1252"@ || name == "cp1252"@;
            let text = charset_text(charset, bytes);
            &&& latin ==> text.len() == bytes.len() && text[i] == bytes[i] as char
            &&& western && !latin ==> text.len() == bytes.len() && (bytes[i] < 0x80 || bytes[i]
                > 0x9f ==> text[i] == bytes[i] as char)
            &&& !latin && !western ==> text == lossy_text(bytes)
        }),
{
}

/// An encoded word is its payload under its encoding and its charset, and
/// it ends with its closing mark.
pub proof fn lemma_an_encoded_word_is_its_payload(
    charset: Text,
    payload: Text,
    after: Text,
    encoding: char,
)
    requires
        forall|i: int| 0 <= i < charset.len() ==> #[trigger] charset[i] != '?',
        forall|i: int| 0 <= i < payload.len() ==> #[trigger] payload[i] != '?',
        encoding != '?',
    ensures
        ({
            let word = seq!['=', '?'] + charset + seq!['?', encoding, '?'] + payload + seq![
                '?',
                '=',
            ];
            let read = encoded_word_of(word + after);
            &&& encoding == 'Q' || encoding == 'q' ==> read == Some(
                (
                    charset_text(charset, quoted_printable_bytes(encode_utf8(payload), true)),
                    word.len() as int,
                ),
            )
            &&& encoding == 'B' || encoding == 'b' ==> (base64_bytes(payload) matches Some(bytes)
                ==> read == Some((charset_text(charset, bytes), word.len() as int)))
            &&& encoding != 'Q' && encoding != 'q' && encoding != 'B' && encoding != 'b' ==> read
                is None
        }),
{
    let word = seq!['=', '?'] + charset + seq!['?', encoding, '?'] + payload + seq!['?', '='];
    let text = word + after;
    let tail = text.skip(2);
    assert(tail =~= charset + (seq!['?', encoding, '?'] + payload + seq!['?', '='] + after));
    assert forall|i: int| 0 <= i < charset.len() implies tail[i] != '?' by {
        assert(tail[i] == charset[i]);
    }
    crate::scan::lemma_find_char_at(tail, '?', charset.len() as int);
    let rest = tail.skip(charset.len() as int + 1);
    assert(tail.take(charset.len() as int) =~= charset);
    assert(rest =~= seq![encoding, '?'] + payload + seq!['?', '='] + after);
    assert(rest[0] == encoding && rest[1] == '?');
    crate::scan::lemma_find_char_at(rest, '?', 1);
    let body = rest.skip(2);
    assert(rest.take(1) =~= seq![encoding]);
    assert(body =~= payload + (seq!['?', '='] + after));
    lemma_the_first_pair(payload, body, '?', '=');
    assert(body.take(payload.len() as int) =~= payload);
    reveal_strlit("B");
    reveal_strlit("b");
    reveal_strlit("Q");
    reveal_strlit("q");
    assert("B"@ =~= seq!['B'] && "b"@ =~= seq!['b'] && "Q"@ =~= seq!['Q'] && "q"@ =~= seq!['q']);
    assert(seq![encoding][0] == encoding);
    assert(seq!['B'][0] == 'B' && seq!['b'][0] == 'b' && seq!['Q'][0] == 'Q' && seq!['q'][0] == 'q');
}

proof fn lemma_the_first_pair(before: Text, text: Text, a: char, b: char)
    requires
        forall|i: int| 0 <= i < before.len() ==> #[trigger] before[i] != a,
        before.is_prefix_of(text),
        text.len() >= before.len() + 2,
        text[before.len() as int] == a,
        text[before.len() as int + 1] == b,
    ensures
        find_pair(text, a, b) == before.len(),
    decreases before.len(),
{
    if before.len() > 0 {
        let rest = before.drop_first();
        assert(text[0] == before[0]);
        assert forall|i: int| 0 <= i < rest.len() implies #[trigger] rest[i] != a by {
            assert(rest[i] == before[i + 1]);
        }
        assert(rest =~= text.drop_first().subrange(0, rest.len() as int));
        lemma_the_first_pair(rest, text.drop_first(), a, b);
    }
}

/// The pieces a time of day is parted into are its hour, its minute and
/// its second, none where it states none.
pub proof fn lemma_a_clock_is_read_piece_by_piece(raw: Text)
    ensures
        ({
            let parts = split_on(raw, ':');
            &&& parts.len() >= 3 ==> (clock_of(raw) matches Some((hour, minute, second))
                ==> unsigned_number(parts[0]) == Some(hour) && unsigned_number(parts[1]) == Some(
                minute,
            ) && unsigned_number(parts[2]) == Some(second))
            &&& parts.len() == 2 ==> (clock_of(raw) matches Some((hour, minute, second))
                ==> unsigned_number(parts[0]) == Some(hour) && unsigned_number(parts[1]) == Some(
                minute,
            ) && second == 0)
            &&& parts.len() >= 2 && unsigned_number(parts[0]) is Some && unsigned_number(parts[1])
                is Some && (parts.len() > 2 ==> unsigned_number(parts[2]) is Some) ==> clock_of(raw)
                is Some
            &&& parts.len() < 2 ==> clock_of(raw) is None
        }),
{
}

/// A header block's line is a field under its name in lower case, parted
/// at its first colon, and the fields end with the first empty line.
pub proof fn lemma_a_header_line_is_a_field(name: Text, value: Text, lines: Seq<Text>)
    requires
        forall|i: int| 0 <= i < name.len() ==> #[trigger] name[i] != ':',
    ensures
        fields_in(seq![name + seq![':'] + value] + lines) == seq![
            (lowercase(trim(name)), trim(value)),
        ] + fields_in(lines),
        fields_in(seq![Text::empty()] + lines).len() == 0,
{
    let line = name + seq![':'] + value;
    let all = seq![line] + lines;
    assert(all[0] == line);
    assert(all.drop_first() =~= lines);
    assert forall|i: int| 0 <= i < name.len() implies line[i] != ':' by {
        assert(line[i] == name[i]);
    }
    crate::scan::lemma_find_char_at(line, ':', name.len() as int);
    assert(line.take(name.len() as int) =~= name);
    assert(line.skip(name.len() as int + 1) =~= value);
    assert((seq![Text::empty()] + lines)[0].len() == 0);
}

/// A quoted name loses its quotes, and each escape in it its backslash;
/// any other is itself.
pub proof fn lemma_a_quoted_name_loses_its_quotes(name: Text, c: char, rest: Text)
    requires
        c != '\\',
        name.len() > 0 ==> name[0] != '"',
    ensures
        unquoted_name(seq!['"'] + rest + seq!['"']) == without_escapes(rest),
        unquoted_name(name) == name,
        without_escapes(seq!['\\', c] + rest) == seq![c] + without_escapes(rest),
        without_escapes(seq![c] + rest) == seq![c] + without_escapes(rest),
        without_escapes(Text::empty()).len() == 0,
{
    let quoted = seq!['"'] + rest + seq!['"'];
    assert(quoted.subrange(1, quoted.len() - 1) =~= rest);
    assert(quoted.last() == '"');
    assert((seq!['\\', c] + rest).skip(2) =~= rest);
    assert((seq![c] + rest).drop_first() =~= rest);
}

/// Each id of a list is told in order: what stands before the bracket that
/// closes each, and nothing of what stands between them.
pub proof fn lemma_every_id_is_told(parts: Seq<Text>, last: Text, id: Text)
    requires
        last.len() > 0,
    ensures
        (cut_once(last, '>') matches Some((inner, _)) && bare_id(inner) == Some(id)) ==> ids_in(
            parts.push(last),
            true,
        ) == ids_in(parts, true).push(id),
        cut_once(last, '>') is None ==> ids_in(parts.push(last), true) == ids_in(parts, true),
        bare_id(last) == Some(id) ==> ids_in(parts.push(last), false) == ids_in(parts, false).push(
            id,
        ),
{
    assert(parts.push(last).drop_last() =~= parts);
}

/// A group's name is dropped with its colon, a comment with its brackets,
/// and a bracketed or quoted character is kept whatever it is.
pub proof fn lemma_what_a_list_keeps(state: ListState, c: char)
    requires
        !state.escaped,
    ensures
        !state.quoted && !state.angled && state.comment == 0 && !state.current.contains('@')
            ==> list_step(state, ':').current.len() == 0 && list_step(state, ':').out == state.out,
        !state.quoted ==> list_step(state, '(').comment == state.comment + 1 && list_step(
            state,
            '(',
        ).current == state.current,
        !state.quoted && state.comment > 0 ==> list_step(state, ')').comment == state.comment - 1
            && list_step(state, ')').current == state.current,
        state.comment == 0 ==> list_step(state, '"').quoted == !state.quoted && list_step(
            state,
            '"',
        ).current == state.current.push('"'),
        state.quoted ==> list_step(state, '\\').escaped && list_step(
            ListState { escaped: true, ..state },
            c,
        ) == (ListState { current: state.current.push(c), ..state }),
        !state.quoted && state.comment == 0 ==> list_step(state, '<').angled && !list_step(
            state,
            '>',
        ).angled,
        state.quoted && state.comment == 0 && c != '"' && c != '\\' ==> list_step(state, c)
            == (ListState { current: state.current.push(c), ..state }),
{
}

/// A date ends where its comment or its parameter starts, whichever comes
/// first, and starts behind the comma of its weekday, where it names one.
pub proof fn lemma_where_a_date_starts_and_ends(raw: Text, weekday: Text, rest: Text)
    requires
        forall|i: int| 0 <= i < weekday.len() ==> #[trigger] weekday[i] != ',',
    ensures
        0 <= date_end(raw) <= raw.len(),
        forall|i: int| 0 <= i < date_end(raw) ==> #[trigger] raw[i] != '(' && raw[i] != ';',
        date_end(raw) < raw.len() ==> raw[date_end(raw)] == '(' || raw[date_end(raw)] == ';',
        after_weekday(weekday + seq![','] + rest) == rest,
        after_weekday(weekday) == weekday,
{
    lemma_find_char(raw, '(');
    lemma_find_char(raw, ';');
    let whole = weekday + seq![','] + rest;
    assert forall|i: int| 0 <= i < weekday.len() implies whole[i] != ',' by {
        assert(whole[i] == weekday[i]);
    }
    crate::scan::lemma_find_char_at(whole, ',', weekday.len() as int);
    crate::scan::lemma_find_char_at(weekday, ',', weekday.len() as int);
    assert(whole.skip(weekday.len() as int + 1) =~= rest);
}

/// The white space between two encoded words belongs to neither, and what
/// stands in front of the first, or is no white space, is kept.
pub proof fn lemma_adjacent_words_join(text: Text, tail: Text, word: Text, len: int)
    requires
        find_pair(text + tail, '=', '?') == text.len(),
        tail.len() > 0,
        encoded_word_of(tail) == Some((word, len)),
    ensures
        trim(text).len() == 0 ==> decoded_from(text + tail, true) == word + decoded_from(
            tail.skip(len),
            true,
        ),
        trim(text).len() > 0 ==> decoded_from(text + tail, true) == text + word + decoded_from(
            tail.skip(len),
            true,
        ),
        decoded_from(text + tail, false) == text + word + decoded_from(tail.skip(len), true),
{
    let whole = text + tail;
    assert(whole.take(text.len() as int) =~= text);
    assert(whole.skip(text.len() as int) =~= tail);
    assert(Text::empty() + word =~= word);
}

/// Ids in angle brackets are read off those, and bare ones off the white
/// space between them.
pub proof fn lemma_ids_are_read_off_their_brackets(raw: Text)
    ensures
        raw.contains('<') ==> ids_of(raw) == ids_in(split_on(raw, '<'), true),
        !raw.contains('<') ==> ids_of(raw) == ids_in(words_of(raw), false),
{
}

/// An entity is an attachment by the disposition it states in front of any
/// parameter, in any letter case, and a multipart's parts are divided by
/// the first boundary its type names.
pub proof fn lemma_a_disposition_decides(
    headers: Seq<(Text, Text)>,
    value: Text,
    params: Seq<Text>,
    name: Text,
    boundary: Text,
)
    requires
        first_value(headers, "content-disposition"@) == Some(value),
        params.len() > 0,
        cut_once(params[0], '=') == Some((name, boundary)),
    ensures
        is_attached(headers) <==> lower_ascii(trim(value.take(find_char(value, ';'))))
            == lower_ascii("attachment"@),
        lower_ascii(trim(name)) == lower_ascii("boundary"@) ==> boundary_in(params) == Some(
            unwrap_char(trim(boundary), '"'),
        ),
        lower_ascii(trim(name)) != lower_ascii("boundary"@) ==> boundary_in(params) == boundary_in(
            params.drop_first(),
        ),
{
}

} // verus!

//! # Summaries
//!
//! What a writer derives from an item before its row reaches the store:
//! the key it is filed under, the row of its kind's summary table with the
//! people it names, and its sort key.
//!
//! The store parses no body. A connector derives from the bytes at the
//! `Full` tier through [`derive()`], and at the `Meta` tier builds the
//! kind's summary from what the protocol hands it (an IMAP ENVELOPE),
//! through the same decoding the kind modules expose, so the two tiers
//! agree byte for byte.

pub mod calendar;
pub mod contact;
pub mod mail;
pub mod time;

use crate::summary::calendar::{
    calendar_derivation, EventSummaryView, JournalSummaryView, PimdirEventSummary, PimdirJournalSummary,
    PimdirTaskSummary, TaskSummaryView,
};
use crate::summary::contact::{contact_derivation, ContactSummaryView, PimdirContactSummary};
use crate::summary::mail::{mail_derivation, MailSummaryView, PimdirMailSummary};
use crate::fnv::{fnv_fold, fnv_start, hex_digits, hex_text, Fnv};
use crate::list::{copy_list, push_to};
use crate::placement::{PimdirLinkId, PimdirSortKey};
use crate::scan::{
    append_chars, chars_of, find, find_char, from_lossy, lossy_text, lower_ascii, lowercase, pieces,
    rfind, rfind_char, spells, spells_any_case, split, split_on, text_of, to_lower, trim, trimmed,
};
use crate::text::{text_same, Text};
use vstd::prelude::*;
use vstd::slice::*;
use vstd::string::*;

verus! {

/// One kind's summary row with the addresses it names.
#[derive(Debug, PartialEq, Eq)]
pub enum PimdirSummary {
    /// A `message/rfc822` item.
    Mail(PimdirMailSummary),
    /// A `text/vcard` item.
    Contact(PimdirContactSummary),
    /// A `text/calendar` `VEVENT` resource.
    Event(PimdirEventSummary),
    /// A `text/calendar` `VTODO` resource.
    Task(PimdirTaskSummary),
    /// A `text/calendar` `VJOURNAL` resource.
    Journal(PimdirJournalSummary),
}

/// What a [`PimdirSummary`] says, by value.
#[verifier::ext_equal]
pub enum SummaryView {
    Mail(MailSummaryView),
    Contact(ContactSummaryView),
    Event(EventSummaryView),
    Task(TaskSummaryView),
    Journal(JournalSummaryView),
}

impl View for PimdirSummary {
    type V = SummaryView;

    open spec fn view(&self) -> SummaryView {
        match *self {
            PimdirSummary::Mail(row) => SummaryView::Mail(row@),
            PimdirSummary::Contact(row) => SummaryView::Contact(row@),
            PimdirSummary::Event(row) => SummaryView::Event(row@),
            PimdirSummary::Task(row) => SummaryView::Task(row@),
            PimdirSummary::Journal(row) => SummaryView::Journal(row@),
        }
    }
}

impl DeepView for PimdirSummary {
    type V = SummaryView;

    open spec fn deep_view(&self) -> SummaryView {
        self@
    }
}

impl Clone for PimdirSummary {
    fn clone(&self) -> (copy: Self)
        ensures
            copy@ == self@,
    {
        match self {
            PimdirSummary::Mail(row) => PimdirSummary::Mail(row.clone()),
            PimdirSummary::Contact(row) => PimdirSummary::Contact(row.clone()),
            PimdirSummary::Event(row) => PimdirSummary::Event(row.clone()),
            PimdirSummary::Task(row) => PimdirSummary::Task(row.clone()),
            PimdirSummary::Journal(row) => PimdirSummary::Journal(row.clone()),
        }
    }
}

/// One person an item names: the canonical addr-spec and a display name.
#[derive(Debug, PartialEq, Eq)]
pub struct PimdirAddress {
    /// The addr-spec alone, lowercased whole.
    pub address: String,
    /// The display name, decoded, when the item carries one.
    pub name: Option<String>,
}

/// What a [`PimdirAddress`] says, by value.
#[verifier::ext_equal]
pub struct AddressView {
    pub address: Text,
    pub name: Option<Text>,
}

impl View for PimdirAddress {
    type V = AddressView;

    open spec fn view(&self) -> AddressView {
        AddressView {
            address: self.address@,
            name: self.name.deep_view(),
        }
    }
}

impl DeepView for PimdirAddress {
    type V = AddressView;

    open spec fn deep_view(&self) -> AddressView {
        self@
    }
}

impl Clone for PimdirAddress {
    fn clone(&self) -> (copy: Self)
        ensures
            copy@ == self@,
    {
        PimdirAddress {
            address: self.address.clone(),
            name: self.name.clone(),
        }
    }
}

/// Copies a list of addresses.
pub fn clone_addresses(addresses: &Vec<PimdirAddress>) -> (copy: Vec<PimdirAddress>)
    ensures
        copy.deep_view() == addresses.deep_view(),
{
    copy_list(addresses)
}

impl SummaryView {
    /// The identity hint the content states.
    pub open spec fn hint(self) -> Option<Text> {
        match self {
            SummaryView::Mail(mail) => mail.message_id,
            SummaryView::Contact(contact) => contact.uid,
            SummaryView::Event(event) => event.uid,
            SummaryView::Task(task) => task.uid,
            SummaryView::Journal(journal) => journal.uid,
        }
    }

    /// What a listing shows the item as.
    pub open spec fn title(self) -> Text {
        match self {
            SummaryView::Mail(mail) => mail.subject,
            SummaryView::Contact(contact) => contact.full_name,
            SummaryView::Event(event) => event.summary,
            SummaryView::Task(task) => task.summary,
            SummaryView::Journal(journal) => journal.summary,
        }
    }

    /// Every person the item names, by role, in document order.
    pub open spec fn addresses(self) -> Seq<(PimdirAddressRole, AddressView)> {
        match self {
            SummaryView::Mail(mail) => under(PimdirAddressRole::From, mail.from) + under(
                PimdirAddressRole::To,
                mail.to,
            ) + under(PimdirAddressRole::Cc, mail.cc) + under(PimdirAddressRole::Bcc, mail.bcc),
            SummaryView::Contact(contact) => under(PimdirAddressRole::Email, contact.emails),
            SummaryView::Event(event) => at_a_meeting(event.organizer, event.attendees),
            SummaryView::Task(task) => at_a_meeting(task.organizer, task.attendees),
            SummaryView::Journal(journal) => at_a_meeting(journal.organizer, journal.attendees),
        }
    }
}

/// Addresses under one role.
pub open spec fn under(role: PimdirAddressRole, addresses: Seq<AddressView>) -> Seq<
    (PimdirAddressRole, AddressView),
> {
    addresses.map_values(|address: AddressView| (role, address))
}

/// The organizer, where there is one, then the attendees.
pub open spec fn at_a_meeting(
    organizer: Option<AddressView>,
    attendees: Seq<AddressView>,
) -> Seq<(PimdirAddressRole, AddressView)> {
    under(
        PimdirAddressRole::Organizer,
        match organizer {
            Some(organizer) => seq![organizer],
            None => Seq::empty(),
        },
    ) + under(PimdirAddressRole::Attendee, attendees)
}

/// What a list of addresses by role says.
pub open spec fn people(list: Seq<(PimdirAddressRole, &PimdirAddress)>) -> Seq<
    (PimdirAddressRole, AddressView),
> {
    list.map_values(|person: (PimdirAddressRole, &PimdirAddress)| (person.0, person.1@))
}

/// A borrowed text, by value.
pub open spec fn borrowed(text: Option<&str>) -> Option<Text> {
    match text {
        Some(text) => Some(text@),
        None => None,
    }
}

/// Borrows a text where there is one.
pub fn as_borrowed(text: &Option<String>) -> (out: Option<&str>)
    ensures
        borrowed(out) == text.deep_view(),
{
    match text {
        Some(text) => Some(text.as_str()),
        None => None,
    }
}

impl PimdirSummary {
    /// The identity hint the content states, or `None` for a derived key.
    pub fn hint(&self) -> (hint: Option<&str>)
        ensures
            borrowed(hint) == self@.hint(),
    {
        match self {
            PimdirSummary::Mail(mail) => as_borrowed(&mail.message_id),
            PimdirSummary::Contact(contact) => as_borrowed(&contact.uid),
            PimdirSummary::Event(event) => as_borrowed(&event.uid),
            PimdirSummary::Task(task) => as_borrowed(&task.uid),
            PimdirSummary::Journal(journal) => as_borrowed(&journal.uid),
        }
    }

    /// What a listing shows the item as: its subject, name or summary.
    pub fn title(&self) -> (title: &str)
        ensures
            title@ == self@.title(),
    {
        match self {
            PimdirSummary::Mail(mail) => mail.subject.as_str(),
            PimdirSummary::Contact(contact) => contact.full_name.as_str(),
            PimdirSummary::Event(event) => event.summary.as_str(),
            PimdirSummary::Task(task) => task.summary.as_str(),
            PimdirSummary::Journal(journal) => journal.summary.as_str(),
        }
    }

    /// Every person the item names, by role, in document order.
    pub fn addresses(&self) -> (list: Vec<(PimdirAddressRole, &PimdirAddress)>)
        ensures
            people(list@) == self@.addresses(),
    {
        let mut out: Vec<(PimdirAddressRole, &PimdirAddress)> = Vec::new();
        assert(people(out@) =~= Seq::empty());
        match self {
            PimdirSummary::Mail(mail) => {
                push(&mut out, PimdirAddressRole::From, &mail.from);
                push(&mut out, PimdirAddressRole::To, &mail.to);
                push(&mut out, PimdirAddressRole::Cc, &mail.cc);
                push(&mut out, PimdirAddressRole::Bcc, &mail.bcc);
            },
            PimdirSummary::Contact(contact) => {
                push(&mut out, PimdirAddressRole::Email, &contact.emails);
            },
            PimdirSummary::Event(event) => {
                push_meeting(&mut out, &event.organizer, &event.attendees);
            },
            PimdirSummary::Task(task) => {
                push_meeting(&mut out, &task.organizer, &task.attendees);
            },
            PimdirSummary::Journal(journal) => {
                push_meeting(&mut out, &journal.organizer, &journal.attendees);
            },
        }
        assert(people(out@) =~= self@.addresses());
        out
    }
}

/// Appends every address under one role.
fn push<'a>(
    out: &mut Vec<(PimdirAddressRole, &'a PimdirAddress)>,
    role: PimdirAddressRole,
    addresses: &'a Vec<PimdirAddress>,
)
    ensures
        people(final(out)@) == people(old(out)@) + under(role, addresses.deep_view()),
{
    let ghost before = people(out@);
    let mut i: usize = 0;
    while i < addresses.len()
        invariant
            i <= addresses.len(),
            people(out@) =~= before + under(role, addresses.deep_view().take(i as int)),
        decreases addresses.len() - i,
    {
        let ghost prior = people(out@);
        let person: (PimdirAddressRole, &'a PimdirAddress) = (role, &addresses[i]);
        out.push(person);
        proof {
            assert(people(out@) =~= prior.push((role, addresses@[i as int]@)));
            assert(under(role, addresses.deep_view().take(i + 1)) =~= under(
                role,
                addresses.deep_view().take(i as int),
            ).push((role, addresses@[i as int]@)));
        }
        i = i + 1;
    }
    assert(addresses.deep_view().take(i as int) =~= addresses.deep_view());
}

/// Appends an organizer and the attendees.
fn push_meeting<'a>(
    out: &mut Vec<(PimdirAddressRole, &'a PimdirAddress)>,
    organizer: &'a Option<PimdirAddress>,
    attendees: &'a Vec<PimdirAddress>,
)
    ensures
        people(final(out)@) == people(old(out)@) + at_a_meeting(
            organizer.deep_view(),
            attendees.deep_view(),
        ),
{
    let ghost before = people(out@);
    if let Some(organizer) = organizer {
        out.push((PimdirAddressRole::Organizer, organizer));
    }
    assert(people(out@) =~= before + under(
        PimdirAddressRole::Organizer,
        match organizer.deep_view() {
            Some(organizer) => seq![organizer],
            None => Seq::empty(),
        },
    ));
    push(out, PimdirAddressRole::Attendee, attendees);
    assert(people(out@) =~= before + at_a_meeting(organizer.deep_view(), attendees.deep_view()));
}

/// How many characters stand up to the parenthesis that closes the given
/// number of open ones, that one included.
pub open spec fn closing(text: Text, depth: nat) -> Option<int>
    decreases text.len(),
{
    if text.len() == 0 || depth == 0 {
        None
    } else if text[0] == '(' {
        one_more(closing(text.drop_first(), depth + 1))
    } else if text[0] == ')' {
        if depth == 1 {
            Some(1)
        } else {
            one_more(closing(text.drop_first(), (depth - 1) as nat))
        }
    } else {
        one_more(closing(text.drop_first(), depth))
    }
}

/// One character more.
pub open spec fn one_more(count: Option<int>) -> Option<int> {
    match count {
        Some(count) => Some(count + 1),
        None => None,
    }
}

proof fn lemma_closing(text: Text, depth: nat)
    ensures
        closing(text, depth) matches Some(n) ==> 1 <= n <= text.len(),
    decreases text.len(),
{
    if text.len() > 0 && depth > 0 {
        if text[0] == '(' {
            lemma_closing(text.drop_first(), depth + 1);
        } else if text[0] == ')' {
            if depth > 1 {
                lemma_closing(text.drop_first(), (depth - 1) as nat);
            }
        } else {
            lemma_closing(text.drop_first(), depth);
        }
    }
}

/// A text without its comments: what stands in closed parentheses outside
/// double quotes.
pub open spec fn uncommented(text: Text, quoted: bool) -> Text
    decreases text.len(),
    via uncommented_shrinks
{
    if text.len() == 0 {
        text
    } else if quoted && text[0] == '\\' && text.len() > 1 {
        text.take(2) + uncommented(text.skip(2), quoted)
    } else if text[0] == '"' {
        text.take(1) + uncommented(text.drop_first(), !quoted)
    } else if !quoted && text[0] == '(' && closing(text.drop_first(), 1) is Some {
        uncommented(text.skip(1 + closing(text.drop_first(), 1)->0), quoted)
    } else {
        text.take(1) + uncommented(text.drop_first(), quoted)
    }
}

#[via_fn]
proof fn uncommented_shrinks(text: Text, quoted: bool) {
    if text.len() > 0 {
        lemma_closing(text.drop_first(), 1);
    }
}

/// How many characters stand up to the closing parenthesis.
fn closing_at(text: &[char]) -> (at: Option<usize>)
    ensures
        match at {
            Some(at) => closing(text@, 1) == Some(at as int) && 1 <= at <= text.len(),
            None => closing(text@, 1) is None,
        },
{
    let mut inner: usize = 0;
    let mut i: usize = 0;
    assert(text@.skip(0) =~= text@);
    while i < text.len()
        invariant
            inner <= i,
            i <= text.len(),
            closing(text@, 1) == match closing(text@.skip(i as int), (inner + 1) as nat) {
                Some(n) => Some(n + i),
                None => None,
            },
        decreases text.len() - i,
    {
        let ghost rest = text@.skip(i as int);
        assert(rest[0] == text@[i as int]);
        assert(rest.drop_first() =~= text@.skip(i + 1));
        if text[i] == '(' {
            inner = inner + 1;
        } else if text[i] == ')' {
            if inner == 0 {
                return Some(i + 1);
            }
            inner = inner - 1;
        }
        i = i + 1;
    }
    None
}

/// A text without its comments.
fn without_comments(text: &[char]) -> (out: Vec<char>)
    ensures
        out@ == uncommented(text@, false),
{
    let mut out: Vec<char> = Vec::new();
    let mut quoted = false;
    let mut i: usize = 0;
    assert(text@.skip(0) =~= text@);
    assert(out@ + uncommented(text@, false) =~= uncommented(text@, false));
    while i < text.len()
        invariant
            i <= text.len(),
            out@ + uncommented(text@.skip(i as int), quoted) == uncommented(text@, false),
        decreases text.len() - i,
    {
        let ghost rest = text@.skip(i as int);
        let ghost before = out@;
        assert(rest[0] == text@[i as int]);
        assert(rest.drop_first() =~= text@.skip(i + 1));
        let tail = slice_subrange(text, i + 1, text.len());
        assert(tail@ =~= rest.drop_first());
        if quoted && text[i] == '\\' && tail.len() > 0 {
            out.push(text[i]);
            out.push(tail[0]);
            assert(rest.skip(2) =~= text@.skip(i + 2));
            assert(out@ =~= before + rest.take(2));
            assert(out@ + uncommented(text@.skip(i + 2), quoted) =~= before + uncommented(
                rest,
                quoted,
            ));
            i = i + 2;
        } else if text[i] == '"' {
            out.push(text[i]);
            assert(out@ =~= before + rest.take(1));
            assert(out@ + uncommented(text@.skip(i + 1), !quoted) =~= before + uncommented(
                rest,
                quoted,
            ));
            quoted = !quoted;
            i = i + 1;
        } else {
            let close = if !quoted && text[i] == '(' {
                closing_at(tail)
            } else {
                None
            };
            match close {
                Some(n) => {
                    assert(rest.skip(1 + n) =~= text@.skip(i + 1 + n));
                    i = i + 1 + n;
                },
                None => {
                    out.push(text[i]);
                    assert(out@ =~= before + rest.take(1));
                    assert(out@ + uncommented(text@.skip(i + 1), quoted) =~= before + uncommented(
                        rest,
                        quoted,
                    ));
                    i = i + 1;
                },
            }
        }
    }
    assert(out@ + uncommented(text@.skip(i as int), quoted) =~= out@);
    out
}

/// What stands in angle brackets, the whole text where nothing does.
pub open spec fn angled(text: Text) -> Text {
    let open = find_char(text, '<');
    match rfind_char(text, '>') {
        Some(close) if open < close => text.subrange(open + 1, close),
        _ => text,
    }
}

/// What stands in angle brackets.
pub fn in_angles<'a>(text: &'a [char]) -> (inner: &'a [char])
    ensures
        inner@ == angled(text@),
{
    let open = find(text, '<');
    match rfind(text, '>') {
        Some(close) => if open < close {
            slice_subrange(text, open + 1, close)
        } else {
            text
        },
        None => text,
    }
}

/// A text without the `mailto:` in front, in any case.
pub open spec fn without_scheme(text: Text) -> Text {
    if text.len() >= 7 && lower_ascii(text.take(7)) == lower_ascii("mailto:"@) {
        text.skip(7)
    } else {
        text
    }
}

/// The canonical form of a raw address.
pub open spec fn canonical_address(raw: Text) -> Text {
    lowercase(trim(without_scheme(trim(angled(trim(uncommented(raw, false)))))))
}

impl PimdirAddress {
    /// The canonical form of a raw address: the addr-spec alone, the
    /// display name, comments, angle brackets and `mailto:` removed,
    /// lowercased whole.
    pub fn canonical(raw: &str) -> (address: String)
        ensures
            address@ == canonical_address(raw@),
    {
        let chars = chars_of(raw);
        let bare = without_comments(chars.as_slice());
        let inner = trimmed(in_angles(trimmed(bare.as_slice())));
        let inner = if inner.len() >= 7 && spells_any_case(slice_subrange(inner, 0, 7), "mailto:") {
            let rest = slice_subrange(inner, 7, inner.len());
            assert(rest@ =~= inner@.skip(7));
            assert(inner@.subrange(0, 7) =~= inner@.take(7));
            rest
        } else {
            assert(inner@.len() >= 7 ==> inner@.subrange(0, 7) =~= inner@.take(7));
            inner
        };
        to_lower(text_of(trimmed(inner)).as_str())
    }
}

/// The role an address plays for an item.
#[derive(Clone, Copy, Debug, Eq, Hash, PartialEq, Ord, PartialOrd)]
pub enum PimdirAddressRole {
    /// A message's `From`.
    From,
    /// A message's `To`.
    To,
    /// A message's `Cc`.
    Cc,
    /// A message's `Bcc`.
    Bcc,
    /// A card's `EMAIL`.
    Email,
    /// A calendar object's `ORGANIZER`.
    Organizer,
    /// A calendar object's `ATTENDEE`.
    Attendee,
}

impl PimdirAddressRole {
    /// The spelling of a role.
    pub open spec fn text(self) -> Text {
        match self {
            PimdirAddressRole::From => "from"@,
            PimdirAddressRole::To => "to"@,
            PimdirAddressRole::Cc => "cc"@,
            PimdirAddressRole::Bcc => "bcc"@,
            PimdirAddressRole::Email => "email"@,
            PimdirAddressRole::Organizer => "organizer"@,
            PimdirAddressRole::Attendee => "attendee"@,
        }
    }

    /// The spelling the `role` column carries.
    pub fn as_str(&self) -> (text: &'static str)
        ensures
            text@ == self.text(),
    {
        match self {
            PimdirAddressRole::From => "from",
            PimdirAddressRole::To => "to",
            PimdirAddressRole::Cc => "cc",
            PimdirAddressRole::Bcc => "bcc",
            PimdirAddressRole::Email => "email",
            PimdirAddressRole::Organizer => "organizer",
            PimdirAddressRole::Attendee => "attendee",
        }
    }

    /// The role a column value names, or `None` for one the format lacks.
    pub fn parse(role: &str) -> (parsed: Option<Self>)
        ensures
            match parsed {
                Some(parsed) => parsed.text() == role@,
                None => forall|other: PimdirAddressRole| #[trigger] other.text() != role@,
            },
    {
        if text_same(role, "from") {
            Some(PimdirAddressRole::From)
        } else if text_same(role, "to") {
            Some(PimdirAddressRole::To)
        } else if text_same(role, "cc") {
            Some(PimdirAddressRole::Cc)
        } else if text_same(role, "bcc") {
            Some(PimdirAddressRole::Bcc)
        } else if text_same(role, "email") {
            Some(PimdirAddressRole::Email)
        } else if text_same(role, "organizer") {
            Some(PimdirAddressRole::Organizer)
        } else if text_same(role, "attendee") {
            Some(PimdirAddressRole::Attendee)
        } else {
            None
        }
    }
}

/// A role round-trips through its column spelling: no two roles share one.
pub proof fn lemma_a_role_is_its_spelling(a: PimdirAddressRole, b: PimdirAddressRole)
    ensures
        a.text() == b.text() ==> a == b,
{
    reveal_strlit("from");
    reveal_strlit("to");
    reveal_strlit("cc");
    reveal_strlit("bcc");
    reveal_strlit("email");
    reveal_strlit("organizer");
    reveal_strlit("attendee");
    assert(a.text() == b.text() ==> a.text().len() == b.text().len());
    assert("to"@[0] == 't' && "cc"@[0] == 'c');
}

/// Everything a writer derives from one item's bytes.
///
/// Written together: an edit refreshing the body without the key would
/// leave the item sorted where its old start put it.
#[derive(Debug, PartialEq, Eq)]
pub struct PimdirDerivation {
    /// The key the item is filed under: the hint when the content states
    /// one, the kind's fallback otherwise.
    pub link_id: PimdirLinkId,
    /// The summary row, `None` for a component the format has no table for.
    pub summary: Option<PimdirSummary>,
    /// The kind's ordering key, empty when nothing orderable was found.
    pub sort_key: PimdirSortKey,
}

/// What a [`PimdirDerivation`] says, by value.
#[verifier::ext_equal]
pub struct DerivationView {
    pub link_id: Text,
    pub summary: Option<SummaryView>,
    pub sort_key: Text,
}

impl View for PimdirDerivation {
    type V = DerivationView;

    open spec fn view(&self) -> DerivationView {
        DerivationView {
            link_id: self.link_id@,
            summary: self.summary.deep_view(),
            sort_key: self.sort_key@,
        }
    }
}

impl DeepView for PimdirDerivation {
    type V = DerivationView;

    open spec fn deep_view(&self) -> DerivationView {
        self@
    }
}

impl Clone for PimdirDerivation {
    fn clone(&self) -> (copy: Self)
        ensures
            copy@ == self@,
    {
        PimdirDerivation {
            link_id: self.link_id.clone(),
            summary: self.summary.clone(),
            sort_key: self.sort_key.clone(),
        }
    }
}

/// The fallback key of a body stating no identity.
pub open spec fn hash_key_text(body: Seq<u8>) -> Text {
    "hash:"@ + hex_digits(fnv_fold(fnv_start(), body) as nat, 16)
}

/// The `hash:` fallback key of a body stating no identity: the sixteen
/// lowercase hexadecimal digits of its FNV-1a 64 digest.
pub fn hash_key(body: &[u8]) -> (key: PimdirLinkId)
    ensures
        key@ == hash_key_text(body@),
{
    let mut digest = Fnv::new();
    digest.update(body);
    let mut text = "hash:".to_owned();
    text.append(hex_text(digest.value()).as_str());
    PimdirLinkId(text)
}

/// The key a body is filed under: the hint it states, or its digest.
pub open spec fn hinted_key(hint: Option<Text>, body: Seq<u8>) -> Text {
    match hint {
        Some(hint) => hint,
        None => hash_key_text(body),
    }
}

/// The key a body is filed under.
pub fn key_or_hash(hint: &Option<String>, body: &[u8]) -> (key: PimdirLinkId)
    ensures
        key@ == hinted_key(hint.deep_view(), body@),
{
    match hint {
        Some(hint) => PimdirLinkId(hint.clone()),
        None => hash_key(body),
    }
}

/// A line without the carriage return it ends with.
pub open spec fn without_return(line: Text) -> Text {
    if line.len() > 0 && line.last() == '\r' {
        line.drop_last()
    } else {
        line
    }
}

/// Whether a line continues the one before it.
pub open spec fn continues(line: Text) -> bool {
    line.len() > 0 && (line[0] == ' ' || line[0] == '\t')
}

/// The logical lines of raw ones.
pub open spec fn joined(lines: Seq<Text>, keep_leading_space: bool) -> Seq<Text>
    decreases lines.len(),
{
    if lines.len() == 0 {
        Seq::empty()
    } else {
        let before = joined(lines.drop_last(), keep_leading_space);
        let line = without_return(lines.last());
        if continues(line) && before.len() > 0 {
            before.drop_last().push(
                before.last() + if keep_leading_space {
                    line
                } else {
                    line.drop_first()
                },
            )
        } else {
            before.push(line)
        }
    }
}

/// The logical lines of a body.
pub open spec fn unfolded(body: Seq<u8>, keep_leading_space: bool) -> Seq<Text> {
    joined(split_on(lossy_text(body), '\n'), keep_leading_space)
}

/// Unfolds a body into its logical lines (RFC 5322 2.2.3, RFC 5545 3.1,
/// RFC 6350 3.2): a line beginning with a space or a tab continues the one
/// before it, and keeps that character where `keep_leading_space` is set.
/// Invalid UTF-8 is replaced, never refused.
pub fn unfold(body: &[u8], keep_leading_space: bool) -> (lines: Vec<String>)
    ensures
        lines.deep_view() == unfolded(body@, keep_leading_space),
{
    let text = from_lossy(body);
    let chars = chars_of(text.as_str());
    let raw = split(chars.as_slice(), '\n');
    let ghost all = pieces(raw@);
    let mut lines: Vec<String> = Vec::new();
    let mut i: usize = 0;
    assert(lines.deep_view() =~= joined(all.take(0), keep_leading_space));
    while i < raw.len()
        invariant
            i <= raw.len(),
            all == pieces(raw@),
            lines.deep_view() == joined(all.take(i as int), keep_leading_space),
        decreases raw.len() - i,
    {
        let line = raw[i];
        proof {
            assert(all.take(i + 1).drop_last() =~= all.take(i as int));
            assert(all.take(i + 1).last() == line@);
        }
        let line = if line.len() > 0 && line[line.len() - 1] == '\r' {
            let cut = slice_subrange(line, 0, line.len() - 1);
            assert(cut@ =~= line@.drop_last());
            cut
        } else {
            line
        };
        let ghost before = lines.deep_view();
        if line.len() > 0 && (line[0] == ' ' || line[0] == '\t') && lines.len() > 0 {
            let mut last = match lines.pop() {
                Some(last) => last,
                None => String::new(),
            };
            assert(lines.deep_view() =~= before.drop_last());
            assert(last@ == before.last());
            if keep_leading_space {
                append_chars(&mut last, line);
            } else {
                let rest = slice_subrange(line, 1, line.len());
                assert(rest@ =~= line@.drop_first());
                append_chars(&mut last, rest);
            }
            push_to(&mut lines, last);
        } else {
            push_to(&mut lines, text_of(line));
        }
        i = i + 1;
    }
    assert(all.take(i as int) =~= all);
    lines
}

/// What a body of a kind derives to.
pub open spec fn derived(kind: Text, body: Seq<u8>) -> Option<DerivationView> {
    let media = trim(kind.take(find_char(kind, ';')));
    if media == "message/rfc822"@ {
        Some(mail_derivation(body))
    } else if media == "text/vcard"@ {
        Some(contact_derivation(body))
    } else if media == "text/calendar"@ {
        Some(calendar_derivation(body))
    } else {
        None
    }
}

/// Derives from a body of the given kind, or `None` for a media type the
/// format has no conventions for.
///
/// The kind is the collection's declared one, matched on the bare media
/// type: `text/vcard; charset=utf-8` reads as `text/vcard`.
pub fn derive(kind: &str, body: &[u8]) -> (derivation: Option<PimdirDerivation>)
    ensures
        derivation.deep_view() == derived(kind@, body@),
{
    let chars = chars_of(kind);
    let chars = chars.as_slice();
    let end = find(chars, ';');
    let bare = slice_subrange(chars, 0, end);
    assert(bare@ =~= chars@.take(end as int));
    let media = trimmed(bare);
    if spells(media, "message/rfc822") {
        Some(mail::derive(body))
    } else if spells(media, "text/vcard") {
        Some(contact::derive(body))
    } else if spells(media, "text/calendar") {
        Some(calendar::derive(body))
    } else {
        None
    }
}

/// The media type alone decides how a body is read, whatever parameters
/// follow it, and a type without conventions derives nothing.
pub proof fn lemma_the_media_type_decides(media: Text, params: Text, body: Seq<u8>)
    requires
        forall|i: int| 0 <= i < media.len() ==> #[trigger] media[i] != ';',
    ensures
        derived(media + seq![';'] + params, body) == derived(media, body),
        trim(media) == "message/rfc822"@ ==> (derived(media, body) matches Some(made)
            && made.summary matches Some(SummaryView::Mail(_))),
        trim(media) == "text/vcard"@ ==> (derived(media, body) matches Some(made)
            && made.summary matches Some(SummaryView::Contact(_))),
        trim(media) == "text/calendar"@ ==> (derived(media, body) matches Some(made) && !(
        made.summary matches Some(SummaryView::Mail(_))) && !(made.summary matches Some(
            SummaryView::Contact(_),
        ))),
        trim(media) != "message/rfc822"@ && trim(media) != "text/vcard"@ && trim(media)
            != "text/calendar"@ ==> derived(media, body) is None,
{
    let kind = media + seq![';'] + params;
    assert forall|i: int| 0 <= i < media.len() implies kind[i] != ';' by {
        assert(kind[i] == media[i]);
    }
    crate::scan::lemma_find_char_at(kind, ';', media.len() as int);
    crate::scan::lemma_find_char_at(media, ';', media.len() as int);
    assert(kind.take(media.len() as int) =~= media);
    assert(media.take(media.len() as int) =~= media);
    reveal_strlit("message/rfc822");
    reveal_strlit("text/vcard");
    reveal_strlit("text/calendar");
    assert("message/rfc822"@.len() == 14 && "text/vcard"@.len() == 10 && "text/calendar"@.len()
        == 13);
}

/// A body that states its identity is filed under it, and any other under
/// a digest that no stated identity need match.
pub proof fn lemma_a_stated_identity_is_the_key(hint: Text, body: Seq<u8>)
    ensures
        hinted_key(Some(hint), body) == hint,
        "hash:"@.is_prefix_of(hinted_key(None, body)),
{
    assert("hash:"@ =~= hash_key_text(body).subrange(0, "hash:"@.len() as int));
}

/// A line that starts with a space or a tab continues the one before it,
/// its first character kept only where asked; any other starts a line,
/// and the carriage return of either is dropped.
pub proof fn lemma_a_folded_line_continues(lines: Seq<Text>, fold: char, more: Text, keep: bool)
    requires
        fold == ' ' || fold == '\t',
        joined(lines, keep).len() > 0,
        more.len() > 0 ==> more.last() != '\r',
    ensures
        ({
            let before = joined(lines, keep);
            let after = joined(lines.push(seq![fold] + more + seq!['\r']), keep);
            &&& after.len() == before.len()
            &&& after.drop_last() == before.drop_last()
            &&& keep ==> after.last() == before.last() + (seq![fold] + more)
            &&& !keep ==> after.last() == before.last() + more
        }),
{
    let line = seq![fold] + more + seq!['\r'];
    assert(lines.push(line).drop_last() =~= lines);
    assert(line.drop_last() =~= seq![fold] + more);
    assert((seq![fold] + more).drop_first() =~= more);
}

/// A line that starts with neither a space nor a tab is a line of its
/// own, without its carriage return.
pub proof fn lemma_a_bare_line_stands_alone(lines: Seq<Text>, line: Text, keep: bool)
    requires
        line.len() > 0 ==> line[0] != ' ' && line[0] != '\t' && line[0] != '\r' && line.last()
            != '\r',
    ensures
        joined(lines.push(line), keep) == joined(lines, keep).push(line),
        joined(lines.push(line.push('\r')), keep) == joined(lines, keep).push(line),
{
    assert(lines.push(line).drop_last() =~= lines);
    assert(lines.push(line.push('\r')).drop_last() =~= lines);
    assert(line.push('\r').drop_last() =~= line);
}

/// Every person a message names stands under the role of its header, the
/// senders first, then the recipients as the message addresses them.
pub proof fn lemma_a_message_names_its_people(mail: MailSummaryView, i: int)
    ensures
        ({
            let people = SummaryView::Mail(mail).addresses();
            let to = mail.from.len() as int;
            let cc = to + mail.to.len();
            let bcc = cc + mail.cc.len();
            &&& people.len() == bcc + mail.bcc.len()
            &&& 0 <= i < mail.from.len() ==> people[i] == (PimdirAddressRole::From, mail.from[i])
            &&& 0 <= i < mail.to.len() ==> people[to + i] == (PimdirAddressRole::To, mail.to[i])
            &&& 0 <= i < mail.cc.len() ==> people[cc + i] == (PimdirAddressRole::Cc, mail.cc[i])
            &&& 0 <= i < mail.bcc.len() ==> people[bcc + i] == (PimdirAddressRole::Bcc, mail.bcc[i])
        }),
{
}

/// Everyone at a meeting stands under their role, the organizer first;
/// every email of a card is one.
pub proof fn lemma_a_calendar_item_names_its_people(
    event: EventSummaryView,
    task: TaskSummaryView,
    journal: JournalSummaryView,
    card: ContactSummaryView,
    organizer: AddressView,
    i: int,
)
    requires
        event.organizer == Some(organizer),
        task.organizer == Some(organizer),
        journal.organizer == Some(organizer),
    ensures
        SummaryView::Event(event).addresses().len() == 1 + event.attendees.len(),
        SummaryView::Task(task).addresses().len() == 1 + task.attendees.len(),
        SummaryView::Journal(journal).addresses().len() == 1 + journal.attendees.len(),
        SummaryView::Event(event).addresses()[0] == (PimdirAddressRole::Organizer, organizer),
        SummaryView::Task(task).addresses()[0] == (PimdirAddressRole::Organizer, organizer),
        SummaryView::Journal(journal).addresses()[0] == (PimdirAddressRole::Organizer, organizer),
        0 <= i < event.attendees.len() ==> SummaryView::Event(event).addresses()[1 + i] == (
            PimdirAddressRole::Attendee,
            event.attendees[i],
        ),
        0 <= i < task.attendees.len() ==> SummaryView::Task(task).addresses()[1 + i] == (
            PimdirAddressRole::Attendee,
            task.attendees[i],
        ),
        0 <= i < journal.attendees.len() ==> SummaryView::Journal(journal).addresses()[1 + i] == (
            PimdirAddressRole::Attendee,
            journal.attendees[i],
        ),
        SummaryView::Contact(card).addresses().len() == card.emails.len(),
        0 <= i < card.emails.len() ==> SummaryView::Contact(card).addresses()[i] == (
            PimdirAddressRole::Email,
            card.emails[i],
        ),
{
}

/// Whether a character is neither a quote, a bracket nor an escape.
pub open spec fn is_bare(c: char) -> bool {
    c != '"' && c != '(' && c != ')' && c != '<' && c != '>' && c != '\\'
}

proof fn lemma_bare_text_is_kept(text: Text, after: Text)
    requires
        forall|i: int| 0 <= i < text.len() ==> is_bare(#[trigger] text[i]),
    ensures
        uncommented(text + after, false) == text + uncommented(after, false),
    decreases text.len(),
{
    if text.len() == 0 {
        assert(text + after =~= after);
        assert(text + uncommented(after, false) =~= uncommented(after, false));
    } else {
        let rest = text.drop_first();
        let all = text + after;
        assert(all[0] == text[0]);
        assert(is_bare(text[0]));
        assert forall|i: int| 0 <= i < rest.len() implies is_bare(#[trigger] rest[i]) by {
            assert(rest[i] == text[i + 1]);
        }
        assert(all.drop_first() =~= rest + after);
        lemma_bare_text_is_kept(rest, after);
        assert(all.take(1) + (rest + uncommented(after, false)) =~= text + uncommented(
            after,
            false,
        ));
    }
}

proof fn lemma_a_comment_closes(comment: Text, after: Text)
    requires
        forall|i: int| 0 <= i < comment.len() ==> is_bare(#[trigger] comment[i]),
    ensures
        closing(comment + seq![')'] + after, 1) == Some(comment.len() as int + 1),
    decreases comment.len(),
{
    let all = comment + seq![')'] + after;
    if comment.len() == 0 {
        assert(all[0] == ')');
    } else {
        let rest = comment.drop_first();
        assert(all[0] == comment[0]);
        assert(is_bare(comment[0]));
        assert forall|i: int| 0 <= i < rest.len() implies is_bare(#[trigger] rest[i]) by {
            assert(rest[i] == comment[i + 1]);
        }
        assert(all.drop_first() =~= rest + seq![')'] + after);
        lemma_a_comment_closes(rest, after);
    }
}

/// A comment is dropped from an address with its brackets, and nothing
/// around it is.
pub proof fn lemma_a_comment_is_dropped(before: Text, comment: Text, after: Text)
    requires
        forall|i: int| 0 <= i < before.len() ==> is_bare(#[trigger] before[i]),
        forall|i: int| 0 <= i < comment.len() ==> is_bare(#[trigger] comment[i]),
        forall|i: int| 0 <= i < after.len() ==> is_bare(#[trigger] after[i]),
    ensures
        uncommented(before + (seq!['('] + comment + seq![')'] + after), false) == before + after,
{
    let tail = seq!['('] + comment + seq![')'] + after;
    lemma_bare_text_is_kept(before, tail);
    lemma_a_comment_closes(comment, after);
    assert(tail[0] == '(');
    assert(tail.drop_first() =~= comment + seq![')'] + after);
    assert(tail.skip(1 + (comment.len() as int + 1)) =~= after);
    assert(after + Text::empty() =~= after);
    lemma_bare_text_is_kept(after, Text::empty());
    assert(uncommented(Text::empty(), false) =~= Text::empty());
    assert(after + uncommented(Text::empty(), false) =~= after);
}

/// The address of a mailbox is what stands in its angle brackets, whatever
/// stands in front of them; without brackets it is the whole, and either
/// way a `mailto:` in front of it is no part of it.
pub proof fn lemma_an_address_is_what_the_brackets_hold(front: Text, address: Text)
    requires
        forall|i: int| 0 <= i < front.len() ==> is_bare(#[trigger] front[i]),
        forall|i: int| 0 <= i < address.len() ==> is_bare(#[trigger] address[i]),
    ensures
        angled(front + seq!['<'] + address + seq!['>']) == address,
        angled(address) == address,
        without_scheme("mailto:"@ + address) == address,
{
    let mailbox = front + seq!['<'] + address + seq!['>'];
    assert forall|i: int| 0 <= i < front.len() implies mailbox[i] != '<' by {
        assert(mailbox[i] == front[i]);
        assert(is_bare(front[i]));
    }
    crate::scan::lemma_find_char_at(mailbox, '<', front.len() as int);
    assert(mailbox.last() == '>');
    assert(rfind_char(mailbox, '>') == Some(mailbox.len() - 1));
    assert(mailbox.subrange(front.len() as int + 1, mailbox.len() - 1) =~= address);
    lemma_no_closing_bracket(address);
    reveal_strlit("mailto:");
    let stated = "mailto:"@ + address;
    assert(stated.take(7) =~= "mailto:"@);
    assert(stated.skip(7) =~= address);
}

proof fn lemma_no_closing_bracket(text: Text)
    requires
        forall|i: int| 0 <= i < text.len() ==> is_bare(#[trigger] text[i]),
    ensures
        rfind_char(text, '>') is None,
    decreases text.len(),
{
    if text.len() > 0 {
        let rest = text.drop_last();
        assert(is_bare(text[text.len() - 1]));
        assert forall|i: int| 0 <= i < rest.len() implies is_bare(#[trigger] rest[i]) by {
            assert(rest[i] == text[i]);
        }
        lemma_no_closing_bracket(rest);
    }
}

} // verus!

//! # Encodings
//!
//! The I/O-free encodings between the model and the store's columns, and
//! the action queue's versioned payload: the part an implementation holding
//! its own SQLite binding reuses.

use crate::collection::PimdirCollectionId;
use crate::fnv::hex_digit;
use crate::hub::PimdirHubConflict;
use crate::list::push_to;
use crate::object::PimdirHash;
use crate::placement::{PimdirFlags, PimdirHandle, PimdirLevel, PimdirLinkId};
use crate::scan::{decimal_text, push_decimal};
use crate::text::{lemma_ascii_order, push_char, text_lt, text_same, Text};
use crate::text_map::{ascending, in_order, TextSet};
use vstd::prelude::*;
use vstd::string::*;
use vstd::utf8::*;

verus! {

/// A character inside a JSON string.
pub open spec fn json_char(c: char) -> Text {
    if c == '"' || c == '\\' {
        seq!['\\', c]
    } else if c == '\u{8}' {
        seq!['\\', 'b']
    } else if c == '\u{c}' {
        seq!['\\', 'f']
    } else if c == '\n' {
        seq!['\\', 'n']
    } else if c == '\r' {
        seq!['\\', 'r']
    } else if c == '\t' {
        seq!['\\', 't']
    } else if c as u32 <= 0x1f {
        seq!['\\', 'u', '0', '0', hex_digit((c as nat) / 16), hex_digit((c as nat) % 16)]
    } else {
        seq![c]
    }
}

/// A text as a JSON string, its quotes aside.
pub open spec fn json_chars(text: Text) -> Text
    decreases text.len(),
{
    if text.len() == 0 {
        text
    } else {
        json_chars(text.drop_last()) + json_char(text.last())
    }
}

/// A text as a JSON string.
pub open spec fn json_string(text: Text) -> Text {
    seq!['"'] + json_chars(text) + seq!['"']
}

/// Texts with a comma between each two.
pub open spec fn comma_joined(texts: Seq<Text>) -> Text
    decreases texts.len(),
{
    if texts.len() == 0 {
        Text::empty()
    } else if texts.len() == 1 {
        texts[0]
    } else {
        comma_joined(texts.drop_last()) + seq![','] + texts.last()
    }
}

/// Texts as a JSON array of strings.
pub open spec fn json_list(items: Seq<Text>) -> Text {
    seq!['['] + comma_joined(items.map_values(|item: Text| json_string(item))) + seq![']']
}

/// The strings a JSON array holds, `None` for a text that is no array of
/// strings.
pub uninterp spec fn json_strings(json: Seq<char>) -> Option<Seq<Seq<char>>>;

/// Prints an array of strings, by `serde_json::to_string`: compact, each
/// string escaped as [`json_char`] states.
#[verifier::external_body]
fn print_strings(items: &Vec<String>) -> (json: String)
    ensures
        json@ == json_list(items.deep_view()),
{
    serde_json::to_string(items).unwrap_or_default()
}

/// Parses an array of strings, by `serde_json::from_str`: a function of the
/// text alone, which gives back what [`print_strings`] prints.
#[verifier::external_body]
fn parse_strings(json: &str) -> (items: Option<Vec<String>>)
    ensures
        items.deep_view() == json_strings(json@),
        forall|list: Seq<Text>| json@ == #[trigger] json_list(list) ==> items.deep_view() == Some(list),
{
    serde_json::from_str(json).ok()
}

/// A flag set as its canonical JSON array, or `None` for the column's
/// `NULL`: a known-empty set is `"[]"`, a set nobody has read is `NULL`.
pub fn flags_to_json(flags: &PimdirFlags) -> (json: Option<String>)
    ensures
        json.deep_view() == match flags@ {
            Some(flags) => Some(json_list(in_order(flags))),
            None => None,
        },
        flags@ matches Some(set) ==> in_order(set).to_set() == set,
{
    match flags.known() {
        Some(set) => Some(print_strings(&members(set))),
        None => None,
    }
}

/// The members of a set, in order.
fn members(set: &TextSet) -> (list: Vec<String>)
    ensures
        list.deep_view() == in_order(set@),
        in_order(set@).to_set() == set@,
{
    let n: usize = set.len();
    let ghost all = in_order(set@);
    let mut list: Vec<String> = Vec::new();
    let mut i: usize = 0;
    assert(list.deep_view() =~= all.take(0));
    while i < n
        invariant
            i <= n,
            n == all.len(),
            all == set.list(),
            list.deep_view() == all.take(i as int),
        decreases n - i,
    {
        push_to(&mut list, set.at(i).clone());
        assert(list.deep_view() =~= all.take(i + 1));
        i = i + 1;
    }
    assert(all.take(i as int) =~= all);
    list
}

/// A set of the given texts.
fn set_of(items: &Vec<String>) -> (set: TextSet)
    ensures
        set@ == items.deep_view().to_set(),
{
    let ghost all = items.deep_view();
    let mut set = TextSet::new();
    let mut i: usize = 0;
    assert(set@ =~= all.take(0).to_set());
    while i < items.len()
        invariant
            i <= items.len(),
            all == items.deep_view(),
            set@ == all.take(i as int).to_set(),
        decreases items.len() - i,
    {
        proof {
            lemma_to_set_push(all.take(i as int), all[i as int]);
            assert(all.take(i + 1) =~= all.take(i as int).push(all[i as int]));
        }
        set.insert(items[i].clone());
        i = i + 1;
    }
    assert(all.take(i as int) =~= all);
    set
}

proof fn lemma_to_set_push(list: Seq<Text>, item: Text)
    ensures
        list.push(item).to_set() == list.to_set().insert(item),
{
    let longer = list.push(item);
    assert forall|t: Text| longer.to_set().contains(t) == list.to_set().insert(item).contains(t) by {
        if list.contains(t) {
            let k = list.index_of(t);
            assert(longer[k] == t);
        }
        assert(longer[list.len() as int] == item);
    }
    assert(longer.to_set() =~= list.to_set().insert(item));
}

/// What a flag column decodes to, given the strings it holds.
pub open spec fn flags_of(strings: Option<Seq<Text>>) -> Option<Set<Text>> {
    match strings {
        Some(items) => Some(items.to_set()),
        None => None,
    }
}

/// The flag set of the strings a column holds, `None` where it holds none.
pub fn flags_from_strings(items: Option<Vec<String>>) -> (flags: PimdirFlags)
    ensures
        flags@ == flags_of(items.deep_view()),
{
    match items {
        Some(items) => PimdirFlags::Known(set_of(&items)),
        None => PimdirFlags::Unknown,
    }
}

/// The inverse of [`flags_to_json`]: `NULL` and a column this cannot read
/// both decode to the unknown set, which holds no opinion in a merge.
pub fn flags_from_json(json: Option<&str>) -> (flags: PimdirFlags)
    ensures
        flags@ == match json {
            Some(json) => flags_of(json_strings(json@)),
            None => None,
        },
        forall|set: Set<Text>| #[trigger]
            in_order(set).to_set() == set && json is Some && json->0@ == json_list(in_order(set))
                ==> flags@ == Some(set),
{
    match json {
        Some(json) => flags_from_strings(parse_strings(json)),
        None => PimdirFlags::Unknown,
    }
}

/// A list of ids as the JSON array column `in_reply_to` holds.
pub fn ids_to_json(ids: &Vec<String>) -> (json: String)
    ensures
        json@ == json_list(ids.deep_view()),
{
    print_strings(ids)
}

/// The ids a column holds; none where it is unreadable.
pub open spec fn ids_of(strings: Option<Seq<Text>>) -> Seq<Text> {
    match strings {
        Some(items) => items,
        None => Seq::empty(),
    }
}

/// The ids of the strings a column holds.
pub fn ids_from_strings(items: Option<Vec<String>>) -> (ids: Vec<String>)
    ensures
        ids.deep_view() == ids_of(items.deep_view()),
{
    match items {
        Some(items) => items,
        None => {
            let none: Vec<String> = Vec::new();
            assert(none.deep_view() =~= Seq::empty());
            none
        },
    }
}

/// The inverse of [`ids_to_json`]; an unreadable column is an empty list.
pub fn ids_from_json(json: &str) -> (ids: Vec<String>)
    ensures
        ids.deep_view() == ids_of(json_strings(json@)),
        forall|list: Seq<Text>| json@ == #[trigger] json_list(list) ==> ids.deep_view() == list,
{
    ids_from_strings(parse_strings(json))
}

/// The detail ladder as its column integer.
pub fn level_to_int(level: PimdirLevel) -> (value: i64)
    ensures
        value == level.rung(),
{
    match level {
        PimdirLevel::Probed => 0,
        PimdirLevel::Meta => 1,
        PimdirLevel::Full => 2,
    }
}

/// The inverse of [`level_to_int`]; an unknown integer clamps to `Probed`.
pub fn level_from_int(value: i64) -> (level: PimdirLevel)
    ensures
        0 <= value <= 2 ==> level.rung() == value,
        value < 0 || value > 2 ==> level == PimdirLevel::Probed,
{
    match value {
        1 => PimdirLevel::Meta,
        2 => PimdirLevel::Full,
        _ => PimdirLevel::Probed,
    }
}

/// A level round-trips through its integer: no two share one.
pub proof fn lemma_a_level_is_its_rung(a: PimdirLevel, b: PimdirLevel)
    ensures
        0 <= a.rung() <= 2,
        a.rung() == b.rung() ==> a == b,
{
}

/// The spelling of a conflict policy.
pub open spec fn conflict_text(policy: PimdirHubConflict) -> Text {
    match policy {
        PimdirHubConflict::Manual => "manual"@,
        PimdirHubConflict::PreferIncoming => "prefer-incoming"@,
        PimdirHubConflict::PreferExisting => "prefer-existing"@,
    }
}

/// A collection's cross-source conflict policy as its column spelling.
pub fn conflict_to_str(policy: PimdirHubConflict) -> (text: &'static str)
    ensures
        text@ == conflict_text(policy),
{
    match policy {
        PimdirHubConflict::Manual => "manual",
        PimdirHubConflict::PreferIncoming => "prefer-incoming",
        PimdirHubConflict::PreferExisting => "prefer-existing",
    }
}

/// The inverse of [`conflict_to_str`]; an unknown spelling is `Manual`.
pub fn conflict_from_str(value: &str) -> (policy: PimdirHubConflict)
    ensures
        conflict_text(policy) == value@ || policy == PimdirHubConflict::Manual && forall|
            other: PimdirHubConflict,
        | #[trigger] conflict_text(other) != value@,
{
    if text_same(value, "prefer-incoming") {
        PimdirHubConflict::PreferIncoming
    } else if text_same(value, "prefer-existing") {
        PimdirHubConflict::PreferExisting
    } else if text_same(value, "manual") {
        PimdirHubConflict::Manual
    } else {
        PimdirHubConflict::Manual
    }
}

/// A policy round-trips through its spelling: no two share one.
pub proof fn lemma_a_policy_is_its_spelling(a: PimdirHubConflict, b: PimdirHubConflict)
    ensures
        conflict_text(a) == conflict_text(b) ==> a == b,
{
    reveal_strlit("manual");
    reveal_strlit("prefer-incoming");
    reveal_strlit("prefer-existing");
    assert("manual"@.len() == 6 && "prefer-incoming"@.len() == 15 && "prefer-existing"@.len() == 15);
    assert("prefer-incoming"@[7] == 'i' && "prefer-existing"@[7] == 'e');
}

/// A queued mutation request: what a producer appends and the owner
/// applies, existing items addressed by their public `seq`.
#[derive(Debug, PartialEq, Eq)]
#[allow(inconsistent_fields)]
pub enum PimdirAction {
    /// Create an item, staged as a local creation for the sync to push.
    ///
    /// The owner derives the summary and addresses from the body. A
    /// duplicate live `link_id` parks the action, a retained one revives.
    Add {
        /// The item's key; `None` derives it from the body.
        link_id: Option<PimdirLinkId>,
        /// The initial flag set.
        flags: PimdirFlags,
        /// The body's hash, written durably by the producer before enqueueing.
        object: Option<PimdirHash>,
        /// The provisional handle the create is staged under.
        handle: Option<PimdirHandle>,
    },
    /// Replace the item's flag set, absolutely.
    SetFlags {
        /// The item's public id.
        seq: i64,
        /// The new flag set.
        flags: PimdirFlags,
    },
    /// Remove the item from the collection; already absent is success.
    Remove {
        /// The item's public id.
        seq: i64,
    },
    /// Refile the item into another collection.
    Move {
        /// The item's public id.
        seq: i64,
        /// The collection to move it into.
        to: PimdirCollectionId,
    },
    /// Copy the item into another collection.
    Copy {
        /// The item's public id.
        seq: i64,
        /// The collection to copy it into.
        to: PimdirCollectionId,
    },
    /// Repoint a mutable-content item's body; the owner re-derives its summary.
    Update {
        /// The item's public id.
        seq: i64,
        /// The new body's hash, written durably by the producer before enqueueing.
        object: PimdirHash,
    },
    /// An application's own intent, which the store skips rather than parks.
    ///
    /// The owner that recognises the kind performs it out of band and
    /// acknowledges it by dropping the row.
    Unknown {
        /// The raw `queue.action` kind.
        kind: String,
        /// The raw versioned JSON payload, verbatim.
        payload: String,
        /// The body the payload's `object` field pins, by the shared convention.
        object_hash: Option<PimdirHash>,
    },
}

/// What a [`PimdirAction`] says, by value.
#[verifier::ext_equal]
#[allow(inconsistent_fields)]
pub enum ActionView {
    Add {
        link_id: Option<Text>,
        flags: Option<Set<Text>>,
        object: Option<Text>,
        handle: Option<Text>,
    },
    SetFlags { seq: i64, flags: Option<Set<Text>> },
    Remove { seq: i64 },
    Move { seq: i64, to: Text },
    Copy { seq: i64, to: Text },
    Update { seq: i64, object: Text },
    Unknown { kind: Text, payload: Text, object_hash: Option<Text> },
}

impl View for PimdirAction {
    type V = ActionView;

    open spec fn view(&self) -> ActionView {
        match *self {
            PimdirAction::Add { link_id, flags, object, handle } => ActionView::Add {
                link_id: link_id.deep_view(),
                flags: flags@,
                object: object.deep_view(),
                handle: handle.deep_view(),
            },
            PimdirAction::SetFlags { seq, flags } => ActionView::SetFlags { seq, flags: flags@ },
            PimdirAction::Remove { seq } => ActionView::Remove { seq },
            PimdirAction::Move { seq, to } => ActionView::Move { seq, to: to@ },
            PimdirAction::Copy { seq, to } => ActionView::Copy { seq, to: to@ },
            PimdirAction::Update { seq, object } => ActionView::Update { seq, object: object@ },
            PimdirAction::Unknown { kind, payload, object_hash } => ActionView::Unknown {
                kind: kind@,
                payload: payload@,
                object_hash: object_hash.deep_view(),
            },
        }
    }
}

impl DeepView for PimdirAction {
    type V = ActionView;

    open spec fn deep_view(&self) -> ActionView {
        self@
    }
}

impl Clone for PimdirAction {
    fn clone(&self) -> (copy: Self)
        ensures
            copy@ == self@,
    {
        match self {
            PimdirAction::Add { link_id, flags, object, handle } => PimdirAction::Add {
                link_id: link_id.clone(),
                flags: flags.clone(),
                object: object.clone(),
                handle: handle.clone(),
            },
            PimdirAction::SetFlags { seq, flags } => PimdirAction::SetFlags {
                seq: *seq,
                flags: flags.clone(),
            },
            PimdirAction::Remove { seq } => PimdirAction::Remove { seq: *seq },
            PimdirAction::Move { seq, to } => PimdirAction::Move { seq: *seq, to: to.clone() },
            PimdirAction::Copy { seq, to } => PimdirAction::Copy { seq: *seq, to: to.clone() },
            PimdirAction::Update { seq, object } => PimdirAction::Update {
                seq: *seq,
                object: object.clone(),
            },
            PimdirAction::Unknown { kind, payload, object_hash } => PimdirAction::Unknown {
                kind: kind.clone(),
                payload: payload.clone(),
                object_hash: object_hash.clone(),
            },
        }
    }
}

impl ActionView {
    /// The kind of an action.
    pub open spec fn kind(self) -> Text {
        match self {
            ActionView::Add { .. } => "add"@,
            ActionView::SetFlags { .. } => "set-flags"@,
            ActionView::Remove { .. } => "remove"@,
            ActionView::Move { .. } => "move"@,
            ActionView::Copy { .. } => "copy"@,
            ActionView::Update { .. } => "update"@,
            ActionView::Unknown { kind, .. } => kind,
        }
    }

    /// The body an action references.
    pub open spec fn object_hash(self) -> Option<Text> {
        match self {
            ActionView::Add { object, .. } => object,
            ActionView::Update { object, .. } => Some(object),
            ActionView::Unknown { object_hash, .. } => object_hash,
            _ => None,
        }
    }
}

/// What a borrowed hash says.
pub open spec fn hash_view(hash: Option<&PimdirHash>) -> Option<Text> {
    match hash {
        Some(hash) => Some(hash@),
        None => None,
    }
}

impl PimdirAction {
    /// The action kind as its `queue.action` column value.
    pub fn kind(&self) -> (kind: &str)
        ensures
            kind@ == self@.kind(),
    {
        match self {
            PimdirAction::Add { .. } => "add",
            PimdirAction::SetFlags { .. } => "set-flags",
            PimdirAction::Remove { .. } => "remove",
            PimdirAction::Move { .. } => "move",
            PimdirAction::Copy { .. } => "copy",
            PimdirAction::Update { .. } => "update",
            PimdirAction::Unknown { kind, .. } => kind.as_str(),
        }
    }

    /// The body the payload references, which the enqueue pins.
    pub fn object_hash(&self) -> (hash: Option<&PimdirHash>)
        ensures
            hash_view(hash) == self@.object_hash(),
    {
        match self {
            PimdirAction::Add { object, .. } => match object {
                Some(object) => Some(object),
                None => None,
            },
            PimdirAction::Update { object, .. } => Some(object),
            PimdirAction::Unknown { object_hash, .. } => match object_hash {
                Some(object) => Some(object),
                None => None,
            },
            PimdirAction::SetFlags { .. }
            | PimdirAction::Remove { .. }
            | PimdirAction::Move { .. }
            | PimdirAction::Copy { .. } => None,
        }
    }
}

/// A malformed action payload, which the owner parks the row with.
#[derive(Debug, PartialEq, Eq)]
pub enum PimdirActionError {
    /// The payload is not a JSON object.
    Json,
    /// The payload's leading `v` is missing or unsupported.
    UnknownVersion(Option<i64>),
    /// A required field is missing or has the wrong shape.
    MissingField(&'static str),
}

/// What a [`PimdirActionError`] says, by value.
#[verifier::ext_equal]
pub enum ActionErrorView {
    Json,
    UnknownVersion(Option<i64>),
    MissingField(Text),
}

impl View for PimdirActionError {
    type V = ActionErrorView;

    open spec fn view(&self) -> ActionErrorView {
        match *self {
            PimdirActionError::Json => ActionErrorView::Json,
            PimdirActionError::UnknownVersion(version) => ActionErrorView::UnknownVersion(version),
            PimdirActionError::MissingField(field) => ActionErrorView::MissingField(field@),
        }
    }
}

impl Clone for PimdirActionError {
    fn clone(&self) -> (copy: Self)
        ensures
            copy@ == self@,
    {
        match self {
            PimdirActionError::Json => PimdirActionError::Json,
            PimdirActionError::UnknownVersion(version) => PimdirActionError::UnknownVersion(
                *version,
            ),
            PimdirActionError::MissingField(field) => PimdirActionError::MissingField(field),
        }
    }
}

/// A number in decimal, its sign in front.
pub open spec fn signed_text(n: int) -> Text {
    if n < 0 {
        seq!['-'] + decimal_text((-n) as nat)
    } else {
        decimal_text(n as nat)
    }
}

/// Appends a number in decimal, its sign in front.
pub fn push_signed(text: &mut String, n: i64)
    ensures
        final(text)@ == old(text)@ + signed_text(n as int),
{
    let ghost before = text@;
    if n < 0 {
        push_char(text, '-');
        push_decimal(text, (-(n + 1)) as u64 + 1);
        assert(text@ =~= before + signed_text(n as int));
    } else {
        push_decimal(text, n as u64);
    }
}

impl ActionErrorView {
    /// The message of an error.
    pub open spec fn message(self) -> Text {
        match self {
            ActionErrorView::Json => "Pimdir action payload is not a JSON object"@,
            ActionErrorView::UnknownVersion(Some(v)) => "Unknown pimdir action version: "@
                + signed_text(v as int),
            ActionErrorView::UnknownVersion(None) => "Pimdir action payload misses its version"@,
            ActionErrorView::MissingField(field) => "Pimdir action payload misses field: "@ + field,
        }
    }
}

impl PimdirActionError {
    /// The message of the error.
    pub fn message(&self) -> (text: String)
        ensures
            text@ == self@.message(),
    {
        match self {
            PimdirActionError::Json => "Pimdir action payload is not a JSON object".to_owned(),
            PimdirActionError::UnknownVersion(Some(v)) => {
                let mut text = "Unknown pimdir action version: ".to_owned();
                push_signed(&mut text, *v);
                text
            },
            PimdirActionError::UnknownVersion(None) => {
                "Pimdir action payload misses its version".to_owned()
            },
            PimdirActionError::MissingField(field) => {
                let mut text = "Pimdir action payload misses field: ".to_owned();
                text.append(field);
                text
            },
        }
    }
}

/// One value of a payload's object, as far as the actions read it.
#[derive(Debug, PartialEq, Eq)]
pub enum PimdirField {
    /// `null`.
    Null,
    /// A number an `i64` holds.
    Number(i64),
    /// A string.
    Text(String),
    /// An array, `None` for each element that is no string.
    List(Vec<Option<String>>),
    /// Anything else.
    Other,
}

/// What a [`PimdirField`] says, by value.
#[verifier::ext_equal]
pub enum FieldView {
    Null,
    Number(i64),
    Text(Text),
    List(Seq<Option<Text>>),
    Other,
}

impl View for PimdirField {
    type V = FieldView;

    open spec fn view(&self) -> FieldView {
        match *self {
            PimdirField::Null => FieldView::Null,
            PimdirField::Number(n) => FieldView::Number(n),
            PimdirField::Text(text) => FieldView::Text(text@),
            PimdirField::List(items) => FieldView::List(items.deep_view()),
            PimdirField::Other => FieldView::Other,
        }
    }
}

impl DeepView for PimdirField {
    type V = FieldView;

    open spec fn deep_view(&self) -> FieldView {
        self@
    }
}

/// A value as JSON.
pub open spec fn json_value(field: FieldView) -> Text {
    match field {
        FieldView::Number(n) => signed_text(n as int),
        FieldView::Text(text) => json_string(text),
        FieldView::List(items) => seq!['['] + comma_joined(
            items.map_values(
                |item: Option<Text>|
                    match item {
                        Some(item) => json_string(item),
                        None => "null"@,
                    },
            ),
        ) + seq![']'],
        _ => "null"@,
    }
}

/// Named values as a JSON object.
pub open spec fn json_object(fields: Seq<(Text, FieldView)>) -> Text {
    seq!['{'] + comma_joined(
        fields.map_values(
            |field: (Text, FieldView)| json_string(field.0) + seq![':'] + json_value(field.1),
        ),
    ) + seq!['}']
}

/// The names of values.
pub open spec fn names_of(fields: Seq<(Text, FieldView)>) -> Seq<Text> {
    fields.map_values(|field: (Text, FieldView)| field.0)
}

/// Whether values print as what they are: every list holds strings alone,
/// and nothing is of another kind.
pub open spec fn printable(fields: Seq<(Text, FieldView)>) -> bool {
    forall|i: int|
        0 <= i < fields.len() ==> match (#[trigger] fields[i]).1 {
            FieldView::List(items) => forall|k: int|
                0 <= k < items.len() ==> #[trigger] items[k] is Some,
            FieldView::Other => false,
            _ => true,
        }
}

/// The named values a JSON object holds, `None` for a text that is none.
pub uninterp spec fn json_fields(payload: Seq<char>) -> Option<Seq<(Seq<char>, FieldView)>>;

/// Prints an object, by the `Display` of `serde_json::Value`: compact, its
/// names in the order given, which is their own.
#[verifier::external_body]
pub(crate) fn print_object(fields: &Vec<(String, PimdirField)>) -> (json: String)
    requires
        ascending(names_of(fields.deep_view())),
    ensures
        json@ == json_object(fields.deep_view()),
{
    let mut map = serde_json::Map::new();
    for (name, field) in fields {
        let value = match field {
            PimdirField::Number(n) => serde_json::Value::from(*n),
            PimdirField::Text(text) => serde_json::Value::from(text.as_str()),
            PimdirField::List(items) => serde_json::Value::from(items.clone()),
            _ => serde_json::Value::Null,
        };
        map.insert(name.clone(), value);
    }
    serde_json::Value::Object(map).to_string()
}

/// Parses an object, by `serde_json::from_str`: a function of the text
/// alone, which gives back what [`print_object`] prints of values that
/// print as what they are.
#[verifier::external_body]
fn parse_object(payload: &str) -> (fields: Option<Vec<(String, PimdirField)>>)
    ensures
        fields.deep_view() == json_fields(payload@),
        forall|list: Seq<(Text, FieldView)>|
            ascending(names_of(list)) && printable(list) && payload@ == #[trigger] json_object(list)
                ==> fields.deep_view() == Some(list),
{
    match serde_json::from_str(payload) {
        Ok(serde_json::Value::Object(map)) => Some(map.into_iter().map(|(name, value)| (name, match value {
            serde_json::Value::Null => PimdirField::Null,
            serde_json::Value::Number(n) => n.as_i64().map_or(PimdirField::Other, PimdirField::Number),
            serde_json::Value::String(text) => PimdirField::Text(text),
            serde_json::Value::Array(items) => PimdirField::List(items.into_iter().map(|item| match item {
                serde_json::Value::String(text) => Some(text),
                _ => None,
            }).collect()),
            _ => PimdirField::Other,
        })).collect()),
        _ => None,
    }
}

/// A flag set as a payload's value: an action states an intent, and an
/// unknown set must not read as clearing every flag.
pub open spec fn flags_field(flags: Option<Set<Text>>) -> FieldView {
    match flags {
        Some(flags) => FieldView::List(in_order(flags).map_values(|flag: Text| Some(flag))),
        None => FieldView::Null,
    }
}

/// A named text, where there is one.
pub open spec fn text_field(name: Text, text: Option<Text>) -> Seq<(Text, FieldView)> {
    match text {
        Some(text) => seq![(name, FieldView::Text(text))],
        None => Seq::empty(),
    }
}

/// The named values of an action's payload, in the order of their names.
pub open spec fn action_fields(action: ActionView) -> Seq<(Text, FieldView)> {
    let version = seq![("v"@, FieldView::Number(1))];
    match action {
        ActionView::Add { link_id, flags, object, handle } => seq![("flags"@, flags_field(flags))]
            + text_field("handle"@, handle) + text_field("link_id"@, link_id) + text_field(
            "object"@,
            object,
        ) + version,
        ActionView::SetFlags { seq, flags } => seq![("flags"@, flags_field(flags))] + seq![
            ("seq"@, FieldView::Number(seq)),
        ] + version,
        ActionView::Remove { seq } => seq![("seq"@, FieldView::Number(seq))] + version,
        ActionView::Move { seq, to } | ActionView::Copy { seq, to } => seq![
            ("seq"@, FieldView::Number(seq)),
        ] + seq![("to"@, FieldView::Text(to))] + version,
        ActionView::Update { seq, object } => seq![("object"@, FieldView::Text(object))] + seq![
            ("seq"@, FieldView::Number(seq)),
        ] + version,
        ActionView::Unknown { .. } => version,
    }
}

/// The payload of an action.
pub open spec fn payload_text(action: ActionView) -> Text {
    match action {
        ActionView::Unknown { payload, .. } => payload,
        _ => json_object(action_fields(action)),
    }
}

/// The names stand in the order of their first characters.
spec fn by_first(names: Seq<Text>) -> bool {
    &&& forall|i: int| 0 <= i < names.len() ==> is_ascii_chars(#[trigger] names[i]) && names[i].len() > 0
    &&& forall|i: int, j: int|
        0 <= i < j < names.len() ==> (#[trigger] names[i])[0] < (#[trigger] names[j])[0]
}

proof fn lemma_by_first(names: Seq<Text>)
    requires
        by_first(names),
    ensures
        ascending(names),
{
    assert forall|i: int, j: int| 0 <= i < j < names.len() implies text_lt(
        #[trigger] names[i],
        #[trigger] names[j],
    ) by {
        assert(names[i].take(0) =~= names[j].take(0));
        lemma_ascii_order(names[i], names[j], 0);
    }
}

proof fn lemma_action_names(action: ActionView)
    ensures
        ascending(names_of(action_fields(action))),
{
    reveal_strlit("flags");
    reveal_strlit("handle");
    reveal_strlit("link_id");
    reveal_strlit("object");
    reveal_strlit("seq");
    reveal_strlit("to");
    reveal_strlit("v");
    let names = names_of(action_fields(action));
    assert(is_ascii_chars("flags"@) && is_ascii_chars("handle"@) && is_ascii_chars("link_id"@));
    assert(is_ascii_chars("object"@) && is_ascii_chars("seq"@) && is_ascii_chars("to"@)
        && is_ascii_chars("v"@));
    assert forall|i: int| 0 <= i < names.len() implies is_ascii_chars(#[trigger] names[i])
        && names[i].len() > 0 by {
        let name = names[i];
        assert(name == "flags"@ || name == "handle"@ || name == "link_id"@ || name == "object"@
            || name == "seq"@ || name == "to"@ || name == "v"@);
    }
    assert(by_first(names));
    lemma_by_first(names);
}

/// Adds a named text, where there is one.
fn push_text(fields: &mut Vec<(String, PimdirField)>, name: &str, text: Option<String>)
    ensures
        final(fields).deep_view() == old(fields).deep_view() + text_field(name@, text.deep_view()),
{
    let ghost before = fields.deep_view();
    if let Some(text) = text {
        push_to(fields, (name.to_owned(), PimdirField::Text(text)));
    }
    assert(fields.deep_view() =~= before + text_field(name@, text.deep_view()));
}

/// Adds a named number.
fn push_number(fields: &mut Vec<(String, PimdirField)>, name: &str, n: i64)
    ensures
        final(fields).deep_view() == old(fields).deep_view() + seq![(name@, FieldView::Number(n))],
{
    let ghost before = fields.deep_view();
    push_to(fields, (name.to_owned(), PimdirField::Number(n)));
    assert(fields.deep_view() =~= before + seq![(name@, FieldView::Number(n))]);
}

/// Adds a flag set.
pub(crate) fn push_flags(fields: &mut Vec<(String, PimdirField)>, flags: &PimdirFlags)
    ensures
        final(fields).deep_view() == old(fields).deep_view() + seq![("flags"@, flags_field(flags@))],
{
    let ghost before = fields.deep_view();
    let field = match flags.known() {
        Some(set) => {
            let list = members(set);
            let ghost all = list.deep_view();
            let mut items: Vec<Option<String>> = Vec::new();
            let mut i: usize = 0;
            assert(items.deep_view() =~= all.take(0).map_values(|flag: Text| Some(flag)));
            while i < list.len()
                invariant
                    i <= list.len(),
                    all == list.deep_view(),
                    items.deep_view() == all.take(i as int).map_values(|flag: Text| Some(flag)),
                decreases list.len() - i,
            {
                push_to(&mut items, Some(list[i].clone()));
                assert(items.deep_view() =~= all.take(i + 1).map_values(|flag: Text| Some(flag)));
                i = i + 1;
            }
            assert(all.take(i as int) =~= all);
            PimdirField::List(items)
        },
        None => PimdirField::Null,
    };
    push_to(fields, ("flags".to_owned(), field));
    assert(fields.deep_view() =~= before + seq![("flags"@, flags_field(flags@))]);
}

/// The text of an id, where there is one.
fn link_text(id: &Option<PimdirLinkId>) -> (text: Option<String>)
    ensures
        text.deep_view() == id.deep_view(),
{
    match id {
        Some(id) => Some(id.0.clone()),
        None => None,
    }
}

/// The text of a hash, where there is one.
fn hash_text(hash: &Option<PimdirHash>) -> (text: Option<String>)
    ensures
        text.deep_view() == hash.deep_view(),
{
    match hash {
        Some(hash) => Some(hash.0.clone()),
        None => None,
    }
}

/// The text of a handle, where there is one.
fn handle_text(handle: &Option<PimdirHandle>) -> (text: Option<String>)
    ensures
        text.deep_view() == handle.deep_view(),
{
    match handle {
        Some(handle) => Some(handle.0.clone()),
        None => None,
    }
}

/// Encodes an action to its versioned JSON payload (`v: 1`).
pub fn action_to_payload(action: &PimdirAction) -> (payload: String)
    ensures
        payload@ == payload_text(action@),
{
    let mut fields: Vec<(String, PimdirField)> = Vec::new();
    assert(fields.deep_view() =~= Seq::empty());
    match action {
        PimdirAction::Unknown { payload, .. } => {
            return payload.clone();
        },
        PimdirAction::Add { link_id, flags, object, handle } => {
            push_flags(&mut fields, flags);
            push_text(&mut fields, "handle", handle_text(handle));
            push_text(&mut fields, "link_id", link_text(link_id));
            push_text(&mut fields, "object", hash_text(object));
        },
        PimdirAction::SetFlags { seq, flags } => {
            push_flags(&mut fields, flags);
            push_number(&mut fields, "seq", *seq);
        },
        PimdirAction::Remove { seq } => {
            push_number(&mut fields, "seq", *seq);
        },
        PimdirAction::Move { seq, to } => {
            push_number(&mut fields, "seq", *seq);
            push_text(&mut fields, "to", Some(to.0.clone()));
        },
        PimdirAction::Copy { seq, to } => {
            push_number(&mut fields, "seq", *seq);
            push_text(&mut fields, "to", Some(to.0.clone()));
        },
        PimdirAction::Update { seq, object } => {
            push_text(&mut fields, "object", Some(object.0.clone()));
            push_number(&mut fields, "seq", *seq);
        },
    }
    push_number(&mut fields, "v", 1);
    assert(fields.deep_view() =~= action_fields(action@));
    proof {
        lemma_action_names(action@);
    }
    print_object(&fields)
}

/// The value under a name.
pub open spec fn field_in(fields: Seq<(Text, FieldView)>, name: Text) -> Option<FieldView>
    decreases fields.len(),
{
    if fields.len() == 0 {
        None
    } else if fields[0].0 == name {
        Some(fields[0].1)
    } else {
        field_in(fields.drop_first(), name)
    }
}

/// What a borrowed value says.
pub open spec fn field_view(field: Option<&PimdirField>) -> Option<FieldView> {
    match field {
        Some(field) => Some(field@),
        None => None,
    }
}

/// The value under a name.
fn field_of<'a>(fields: &'a Vec<(String, PimdirField)>, name: &str) -> (field: Option<
    &'a PimdirField,
>)
    ensures
        field_view(field) == field_in(fields.deep_view(), name@),
{
    let ghost all = fields.deep_view();
    let mut i: usize = 0;
    assert(all.skip(0) =~= all);
    while i < fields.len()
        invariant
            i <= fields.len(),
            all == fields.deep_view(),
            field_in(all, name@) == field_in(all.skip(i as int), name@),
        decreases fields.len() - i,
    {
        proof {
            assert(all.skip(i as int)[0] == all[i as int]);
            assert(all.skip(i as int).drop_first() =~= all.skip(i + 1));
        }
        if text_same(fields[i].0.as_str(), name) {
            return Some(&fields[i].1);
        }
        i = i + 1;
    }
    None
}

/// The strings of a list, what is none left out.
pub open spec fn strings_in(items: Seq<Option<Text>>) -> Seq<Text>
    decreases items.len(),
{
    if items.len() == 0 {
        Seq::empty()
    } else {
        match items.last() {
            Some(item) => strings_in(items.drop_last()).push(item),
            None => strings_in(items.drop_last()),
        }
    }
}

/// The flag set a payload's value states.
pub open spec fn flags_in(field: Option<FieldView>) -> Option<Set<Text>> {
    match field {
        None => None,
        Some(FieldView::Null) => None,
        Some(FieldView::List(items)) => Some(strings_in(items).to_set()),
        Some(_) => Some(Set::empty()),
    }
}

/// The flag set a payload's value states.
fn flags_from_field(field: Option<&PimdirField>) -> (flags: PimdirFlags)
    ensures
        flags@ == flags_in(field_view(field)),
{
    match field {
        None => PimdirFlags::Unknown,
        Some(PimdirField::Null) => PimdirFlags::Unknown,
        Some(PimdirField::List(items)) => {
            let ghost all = items.deep_view();
            let mut strings: Vec<String> = Vec::new();
            let mut i: usize = 0;
            assert(strings.deep_view() =~= strings_in(all.take(0)));
            while i < items.len()
                invariant
                    i <= items.len(),
                    all == items.deep_view(),
                    strings.deep_view() == strings_in(all.take(i as int)),
                decreases items.len() - i,
            {
                proof {
                    assert(all.take(i + 1).drop_last() =~= all.take(i as int));
                    assert(all.take(i + 1).last() == items@[i as int].deep_view());
                }
                if let Some(item) = &items[i] {
                    push_to(&mut strings, item.clone());
                }
                i = i + 1;
            }
            assert(all.take(i as int) =~= all);
            PimdirFlags::Known(set_of(&strings))
        },
        Some(_) => PimdirFlags::Known(TextSet::new()),
    }
}

/// The text under a name; `Err` where something else stands there.
pub open spec fn text_in(fields: Seq<(Text, FieldView)>, name: Text) -> Result<
    Option<Text>,
    ActionErrorView,
> {
    match field_in(fields, name) {
        None => Ok(None),
        Some(FieldView::Text(text)) => Ok(Some(text)),
        Some(_) => Err(ActionErrorView::MissingField(name)),
    }
}

/// The text under a name that must be there.
pub open spec fn required_text(fields: Seq<(Text, FieldView)>, name: Text) -> Result<
    Text,
    ActionErrorView,
> {
    match text_in(fields, name) {
        Ok(Some(text)) => Ok(text),
        _ => Err(ActionErrorView::MissingField(name)),
    }
}

/// The number under a name.
pub open spec fn number_in(fields: Seq<(Text, FieldView)>, name: Text) -> Option<i64> {
    match field_in(fields, name) {
        Some(FieldView::Number(n)) => Some(n),
        _ => None,
    }
}

/// The public id a payload must name.
pub open spec fn required_seq(fields: Seq<(Text, FieldView)>) -> Result<i64, ActionErrorView> {
    match number_in(fields, "seq"@) {
        Some(seq) => Ok(seq),
        None => Err(ActionErrorView::MissingField("seq"@)),
    }
}

/// A result of decoding, by value.
pub open spec fn decoded_view(result: Result<PimdirAction, PimdirActionError>) -> Result<
    ActionView,
    ActionErrorView,
> {
    match result {
        Ok(action) => Ok(action@),
        Err(error) => Err(error@),
    }
}

/// A result of reading a text, by value.
pub open spec fn text_view(result: Result<Option<String>, PimdirActionError>) -> Result<
    Option<Text>,
    ActionErrorView,
> {
    match result {
        Ok(text) => Ok(text.deep_view()),
        Err(error) => Err(error@),
    }
}

/// The text under a name.
fn get_string(fields: &Vec<(String, PimdirField)>, field: &'static str) -> (text: Result<
    Option<String>,
    PimdirActionError,
>)
    ensures
        text_view(text) == text_in(fields.deep_view(), field@),
{
    match field_of(fields, field) {
        None => Ok(None),
        Some(PimdirField::Text(text)) => Ok(Some(text.clone())),
        Some(_) => Err(PimdirActionError::MissingField(field)),
    }
}

/// The text under a name that must be there.
fn require_string(fields: &Vec<(String, PimdirField)>, field: &'static str) -> (text: Result<
    String,
    PimdirActionError,
>)
    ensures
        match text {
            Ok(text) => required_text(fields.deep_view(), field@) == Ok::<Text, ActionErrorView>(
                text@,
            ),
            Err(error) => required_text(fields.deep_view(), field@) == Err::<Text, ActionErrorView>(
                error@,
            ),
        },
{
    match get_string(fields, field) {
        Ok(Some(text)) => Ok(text),
        _ => Err(PimdirActionError::MissingField(field)),
    }
}

/// The number under a name.
fn get_number(fields: &Vec<(String, PimdirField)>, field: &str) -> (n: Option<i64>)
    ensures
        n == number_in(fields.deep_view(), field@),
{
    match field_of(fields, field) {
        Some(PimdirField::Number(n)) => Some(*n),
        _ => None,
    }
}

/// The public id a payload must name.
fn require_seq(fields: &Vec<(String, PimdirField)>) -> (seq: Result<i64, PimdirActionError>)
    ensures
        match seq {
            Ok(seq) => required_seq(fields.deep_view()) == Ok::<i64, ActionErrorView>(seq),
            Err(error) => required_seq(fields.deep_view()) == Err::<i64, ActionErrorView>(error@),
        },
{
    match get_number(fields, "seq") {
        Some(seq) => Ok(seq),
        None => Err(PimdirActionError::MissingField("seq")),
    }
}

/// The creation named values state.
pub open spec fn add_of(fields: Seq<(Text, FieldView)>) -> Result<ActionView, ActionErrorView> {
    match (text_in(fields, "link_id"@), text_in(fields, "object"@), text_in(fields, "handle"@)) {
        (Ok(link_id), Ok(object), Ok(handle)) => Ok(
            ActionView::Add { link_id, flags: flags_in(field_in(fields, "flags"@)), object, handle },
        ),
        (Err(error), _, _) => Err(error),
        (_, Err(error), _) => Err(error),
        (_, _, Err(error)) => Err(error),
    }
}

/// The action of a kind that named values state, given the payload they
/// were read from.
pub open spec fn stated_action(kind: Text, payload: Text, fields: Seq<(Text, FieldView)>) -> Result<
    ActionView,
    ActionErrorView,
> {
    if kind == "add"@ {
        add_of(fields)
    } else if kind == "set-flags"@ {
        match required_seq(fields) {
            Ok(seq) => Ok(
                ActionView::SetFlags { seq, flags: flags_in(field_in(fields, "flags"@)) },
            ),
            Err(error) => Err(error),
        }
    } else if kind == "remove"@ {
        match required_seq(fields) {
            Ok(seq) => Ok(ActionView::Remove { seq }),
            Err(error) => Err(error),
        }
    } else if kind == "move"@ || kind == "copy"@ {
        match (required_seq(fields), required_text(fields, "to"@)) {
            (Ok(seq), Ok(to)) => if kind == "move"@ {
                Ok(ActionView::Move { seq, to })
            } else {
                Ok(ActionView::Copy { seq, to })
            },
            (Err(error), _) => Err(error),
            (_, Err(error)) => Err(error),
        }
    } else if kind == "update"@ {
        match (required_seq(fields), required_text(fields, "object"@)) {
            (Ok(seq), Ok(object)) => Ok(ActionView::Update { seq, object }),
            (Err(error), _) => Err(error),
            (_, Err(error)) => Err(error),
        }
    } else {
        match text_in(fields, "object"@) {
            Ok(object_hash) => Ok(ActionView::Unknown { kind, payload, object_hash }),
            Err(error) => Err(error),
        }
    }
}

/// The action a kind and its payload state, given the named values the
/// payload holds.
pub open spec fn action_of(
    kind: Text,
    payload: Text,
    fields: Option<Seq<(Text, FieldView)>>,
) -> Result<ActionView, ActionErrorView> {
    match fields {
        Some(fields) => if number_in(fields, "v"@) == Some(1i64) {
            stated_action(kind, payload, fields)
        } else {
            Err(ActionErrorView::UnknownVersion(number_in(fields, "v"@)))
        },
        None => Err(ActionErrorView::Json),
    }
}

/// An id of a text, where there is one.
fn to_link(text: Option<String>) -> (id: Option<PimdirLinkId>)
    ensures
        id.deep_view() == text.deep_view(),
{
    match text {
        Some(text) => Some(PimdirLinkId(text)),
        None => None,
    }
}

/// A hash of a text, where there is one.
fn to_hash(text: Option<String>) -> (hash: Option<PimdirHash>)
    ensures
        hash.deep_view() == text.deep_view(),
{
    match text {
        Some(text) => Some(PimdirHash(text)),
        None => None,
    }
}

/// A handle of a text, where there is one.
fn to_handle(text: Option<String>) -> (handle: Option<PimdirHandle>)
    ensures
        handle.deep_view() == text.deep_view(),
{
    match text {
        Some(text) => Some(PimdirHandle(text)),
        None => None,
    }
}

/// Decodes a kind and the named values of its payload.
pub fn action_from_fields(
    kind: &str,
    payload: &str,
    fields: Option<Vec<(String, PimdirField)>>,
) -> (action: Result<PimdirAction, PimdirActionError>)
    ensures
        decoded_view(action) == action_of(kind@, payload@, fields.deep_view()),
{
    proof {
        lemma_kinds_apart();
    }
    let fields = match fields {
        Some(fields) => fields,
        None => {
            return Err(PimdirActionError::Json);
        },
    };
    match get_number(&fields, "v") {
        Some(1) => {},
        version => {
            return Err(PimdirActionError::UnknownVersion(version));
        },
    }
    if text_same(kind, "add") {
        let link_id = match get_string(&fields, "link_id") {
            Ok(text) => to_link(text),
            Err(error) => {
                return Err(error);
            },
        };
        let object = match get_string(&fields, "object") {
            Ok(text) => to_hash(text),
            Err(error) => {
                return Err(error);
            },
        };
        let handle = match get_string(&fields, "handle") {
            Ok(text) => to_handle(text),
            Err(error) => {
                return Err(error);
            },
        };
        let flags = flags_from_field(field_of(&fields, "flags"));
        return Ok(PimdirAction::Add { link_id, flags, object, handle });
    }
    let known = text_same(kind, "set-flags") || text_same(kind, "remove") || text_same(
        kind,
        "move",
    ) || text_same(kind, "copy") || text_same(kind, "update");
    if !known {
        return match get_string(&fields, "object") {
            Ok(text) => Ok(
                PimdirAction::Unknown {
                    kind: kind.to_owned(),
                    payload: payload.to_owned(),
                    object_hash: to_hash(text),
                },
            ),
            Err(error) => Err(error),
        };
    }
    let seq: i64 = match require_seq(&fields) {
        Ok(seq) => seq,
        Err(error) => {
            return Err(error);
        },
    };
    if text_same(kind, "set-flags") {
        let flags = flags_from_field(field_of(&fields, "flags"));
        Ok(PimdirAction::SetFlags { seq, flags })
    } else if text_same(kind, "remove") {
        Ok(PimdirAction::Remove { seq })
    } else if text_same(kind, "update") {
        match require_string(&fields, "object") {
            Ok(object) => Ok(PimdirAction::Update { seq, object: PimdirHash(object) }),
            Err(error) => Err(error),
        }
    } else {
        match require_string(&fields, "to") {
            Ok(to) => if text_same(kind, "move") {
                Ok(PimdirAction::Move { seq, to: PimdirCollectionId(to) })
            } else {
                Ok(PimdirAction::Copy { seq, to: PimdirCollectionId(to) })
            },
            Err(error) => Err(error),
        }
    }
}

/// Decodes a kind and its payload, strictly: a malformed payload is an
/// error the owner parks with, an unknown kind an intent it skips.
///
/// The payload of an action decodes to that action.
pub fn action_from_payload(kind: &str, payload: &str) -> (action: Result<
    PimdirAction,
    PimdirActionError,
>)
    ensures
        decoded_view(action) == action_of(kind@, payload@, json_fields(payload@)),
        forall|sent: ActionView|
            is_the_stores(sent) && kind@ == sent.kind() && payload@ == #[trigger] payload_text(sent)
                ==> decoded_view(action) == Ok::<ActionView, ActionErrorView>(sent),
{
    let fields = parse_object(payload);
    proof {
        assert forall|sent: ActionView|
            is_the_stores(sent) && kind@ == sent.kind() && payload@ == #[trigger] payload_text(
                sent,
            ) implies action_of(kind@, payload@, fields.deep_view()) == Ok::<
            ActionView,
            ActionErrorView,
        >(sent) by {
            lemma_action_names(sent);
            lemma_action_prints(sent);
            assert(payload@ == json_object(action_fields(sent)));
            lemma_an_action_is_its_fields(sent, payload@);
        }
    }
    action_from_fields(kind, payload, fields)
}

/// Whether an action is one of the store's own, its flags a set that can be
/// listed.
pub open spec fn is_the_stores(action: ActionView) -> bool {
    match action {
        ActionView::Add { flags, .. } => listed(flags),
        ActionView::SetFlags { flags, .. } => listed(flags),
        ActionView::Unknown { .. } => false,
        _ => true,
    }
}

/// Whether a flag set can be listed.
pub open spec fn listed(flags: Option<Set<Text>>) -> bool {
    flags matches Some(set) ==> in_order(set).to_set() == set
}

proof fn lemma_action_prints(action: ActionView)
    ensures
        printable(action_fields(action)),
{
    let fields = action_fields(action);
    assert forall|i: int| 0 <= i < fields.len() implies match (#[trigger] fields[i]).1 {
        FieldView::List(items) => forall|k: int|
            0 <= k < items.len() ==> #[trigger] items[k] is Some,
        FieldView::Other => false,
        _ => true,
    } by {
        match fields[i].1 {
            FieldView::List(items) => {
                assert(fields[i].0 == "flags"@);
            },
            _ => {},
        }
    }
}

proof fn lemma_strings_of_all(list: Seq<Text>)
    ensures
        strings_in(list.map_values(|flag: Text| Some(flag))) == list,
    decreases list.len(),
{
    let items = list.map_values(|flag: Text| Some(flag));
    if list.len() > 0 {
        lemma_strings_of_all(list.drop_last());
        assert(items.drop_last() =~= list.drop_last().map_values(|flag: Text| Some(flag)));
        assert(items.last() == Some(list.last()));
        assert(list =~= list.drop_last().push(list.last()));
    } else {
        assert(strings_in(items) =~= list);
    }
}

proof fn lemma_flags_round_trip(flags: Option<Set<Text>>)
    requires
        listed(flags),
    ensures
        flags_in(Some(flags_field(flags))) == flags,
{
    if let Some(set) = flags {
        lemma_strings_of_all(in_order(set));
    }
}

proof fn lemma_field_behind(a: Seq<(Text, FieldView)>, b: Seq<(Text, FieldView)>, name: Text)
    ensures
        field_in(a + b, name) == match field_in(a, name) {
            Some(field) => Some(field),
            None => field_in(b, name),
        },
    decreases a.len(),
{
    if a.len() == 0 {
        assert(a + b =~= b);
    } else {
        assert((a + b).drop_first() =~= a.drop_first() + b);
        assert((a + b)[0] == a[0]);
        lemma_field_behind(a.drop_first(), b, name);
    }
}

proof fn lemma_single_field(name: Text, field: FieldView, wanted: Text)
    ensures
        field_in(seq![(name, field)], wanted) == if name == wanted {
            Some(field)
        } else {
            None
        },
{
    reveal_with_fuel(field_in, 2);
    let one = seq![(name, field)];
    assert(one.drop_first().len() == 0);
}

/// Every value an action's payload states, looked up by its name.
proof fn lemma_action_lookups(action: ActionView, name: Text)
    ensures
        field_in(action_fields(action), name) == match action {
            ActionView::Add { link_id, flags, object, handle } => if name == "flags"@ {
                Some(flags_field(flags))
            } else if name == "handle"@ && handle is Some {
                Some(FieldView::Text(handle->0))
            } else if name == "link_id"@ && link_id is Some {
                Some(FieldView::Text(link_id->0))
            } else if name == "object"@ && object is Some {
                Some(FieldView::Text(object->0))
            } else if name == "v"@ {
                Some(FieldView::Number(1))
            } else {
                None
            },
            ActionView::SetFlags { seq, flags } => if name == "flags"@ {
                Some(flags_field(flags))
            } else if name == "seq"@ {
                Some(FieldView::Number(seq))
            } else if name == "v"@ {
                Some(FieldView::Number(1))
            } else {
                None
            },
            ActionView::Remove { seq } => if name == "seq"@ {
                Some(FieldView::Number(seq))
            } else if name == "v"@ {
                Some(FieldView::Number(1))
            } else {
                None
            },
            ActionView::Move { seq, to } | ActionView::Copy { seq, to } => if name == "seq"@ {
                Some(FieldView::Number(seq))
            } else if name == "to"@ {
                Some(FieldView::Text(to))
            } else if name == "v"@ {
                Some(FieldView::Number(1))
            } else {
                None
            },
            ActionView::Update { seq, object } => if name == "object"@ {
                Some(FieldView::Text(object))
            } else if name == "seq"@ {
                Some(FieldView::Number(seq))
            } else if name == "v"@ {
                Some(FieldView::Number(1))
            } else {
                None
            },
            ActionView::Unknown { .. } => if name == "v"@ {
                Some(FieldView::Number(1))
            } else {
                None
            },
        },
{
    lemma_names_apart();
    let version = seq![("v"@, FieldView::Number(1))];
    lemma_single_field("v"@, FieldView::Number(1), name);
    match action {
        ActionView::Add { link_id, flags, object, handle } => {
            let a = seq![("flags"@, flags_field(flags))];
            let b = text_field("handle"@, handle);
            let c = text_field("link_id"@, link_id);
            let d = text_field("object"@, object);
            lemma_single_field("flags"@, flags_field(flags), name);
            if handle is Some {
                lemma_single_field("handle"@, FieldView::Text(handle->0), name);
            }
            if link_id is Some {
                lemma_single_field("link_id"@, FieldView::Text(link_id->0), name);
            }
            if object is Some {
                lemma_single_field("object"@, FieldView::Text(object->0), name);
            }
            lemma_field_behind(a + b + c + d, version, name);
            lemma_field_behind(a + b + c, d, name);
            lemma_field_behind(a + b, c, name);
            lemma_field_behind(a, b, name);
        },
        ActionView::SetFlags { seq, flags } => {
            let a = seq![("flags"@, flags_field(flags))];
            let b = seq![("seq"@, FieldView::Number(seq))];
            lemma_single_field("flags"@, flags_field(flags), name);
            lemma_single_field("seq"@, FieldView::Number(seq), name);
            lemma_field_behind(a + b, version, name);
            lemma_field_behind(a, b, name);
        },
        ActionView::Remove { seq } => {
            let b = seq![("seq"@, FieldView::Number(seq))];
            lemma_single_field("seq"@, FieldView::Number(seq), name);
            lemma_field_behind(b, version, name);
        },
        ActionView::Move { seq, to } => {
            lemma_refile_lookups(seq, to, name);
        },
        ActionView::Copy { seq, to } => {
            lemma_refile_lookups(seq, to, name);
        },
        ActionView::Update { seq, object } => {
            let a = seq![("object"@, FieldView::Text(object))];
            let b = seq![("seq"@, FieldView::Number(seq))];
            lemma_single_field("object"@, FieldView::Text(object), name);
            lemma_single_field("seq"@, FieldView::Number(seq), name);
            lemma_field_behind(a + b, version, name);
            lemma_field_behind(a, b, name);
        },
        ActionView::Unknown { .. } => {},
    }
}

proof fn lemma_refile_lookups(seq: i64, to: Text, name: Text)
    ensures
        field_in(
            seq![("seq"@, FieldView::Number(seq))] + seq![("to"@, FieldView::Text(to))] + seq![
                ("v"@, FieldView::Number(1)),
            ],
            name,
        ) == if name == "seq"@ {
            Some(FieldView::Number(seq))
        } else if name == "to"@ {
            Some(FieldView::Text(to))
        } else if name == "v"@ {
            Some(FieldView::Number(1))
        } else {
            None
        },
{
    let a = seq![("seq"@, FieldView::Number(seq))];
    let b = seq![("to"@, FieldView::Text(to))];
    let version = seq![("v"@, FieldView::Number(1))];
    lemma_single_field("seq"@, FieldView::Number(seq), name);
    lemma_single_field("to"@, FieldView::Text(to), name);
    lemma_single_field("v"@, FieldView::Number(1), name);
    lemma_field_behind(a + b, version, name);
    lemma_field_behind(a, b, name);
}

proof fn lemma_names_apart()
    ensures
        "flags"@ != "handle"@ && "flags"@ != "link_id"@ && "flags"@ != "object"@ && "flags"@
            != "seq"@ && "flags"@ != "v"@,
        "handle"@ != "link_id"@ && "handle"@ != "object"@ && "handle"@ != "v"@,
        "link_id"@ != "object"@ && "link_id"@ != "v"@,
        "object"@ != "seq"@ && "object"@ != "v"@,
        "seq"@ != "to"@ && "seq"@ != "v"@ && "to"@ != "v"@,
{
    reveal_strlit("flags");
    reveal_strlit("handle");
    reveal_strlit("link_id");
    reveal_strlit("object");
    reveal_strlit("seq");
    reveal_strlit("to");
    reveal_strlit("v");
    assert("flags"@[0] == 'f' && "handle"@[0] == 'h' && "link_id"@[0] == 'l' && "object"@[0] == 'o');
    assert("seq"@[0] == 's' && "to"@[0] == 't' && "v"@[0] == 'v');
}

proof fn lemma_kinds_apart()
    ensures
        "add"@ != "set-flags"@ && "add"@ != "remove"@ && "add"@ != "move"@ && "add"@ != "copy"@
            && "add"@ != "update"@,
        "set-flags"@ != "remove"@ && "set-flags"@ != "move"@ && "set-flags"@ != "copy"@
            && "set-flags"@ != "update"@,
        "remove"@ != "move"@ && "remove"@ != "copy"@ && "remove"@ != "update"@,
        "move"@ != "copy"@ && "move"@ != "update"@ && "copy"@ != "update"@,
{
    reveal_strlit("add");
    reveal_strlit("set-flags");
    reveal_strlit("remove");
    reveal_strlit("move");
    reveal_strlit("copy");
    reveal_strlit("update");
    assert("add"@[0] == 'a' && "set-flags"@[0] == 's' && "remove"@[0] == 'r');
    assert("move"@[0] == 'm' && "copy"@[0] == 'c' && "update"@[0] == 'u');
}

/// An action of the store's own is what the named values of its payload
/// state, under its kind: nothing of it is lost in the queue.
pub proof fn lemma_an_action_is_its_fields(action: ActionView, payload: Text)
    requires
        is_the_stores(action),
    ensures
        action_of(action.kind(), payload, Some(action_fields(action))) == Ok::<
            ActionView,
            ActionErrorView,
        >(action),
{
    lemma_kinds_apart();
    lemma_names_apart();
    lemma_action_lookups(action, "v"@);
    lemma_action_lookups(action, "seq"@);
    lemma_action_lookups(action, "flags"@);
    lemma_action_lookups(action, "object"@);
    lemma_action_lookups(action, "handle"@);
    lemma_action_lookups(action, "link_id"@);
    lemma_action_lookups(action, "to"@);
    match action {
        ActionView::Add { flags, .. } => {
            lemma_flags_round_trip(flags);
        },
        ActionView::SetFlags { flags, .. } => {
            lemma_flags_round_trip(flags);
        },
        _ => {},
    }
}

/// An application's own intent survives the queue whole: what decodes to
/// one encodes to the payload it came from.
pub proof fn lemma_an_unknown_intent_survives_whole(
    kind: Text,
    payload: Text,
    fields: Option<Seq<(Text, FieldView)>>,
)
    requires
        action_of(kind, payload, fields) matches Ok(action) && action is Unknown,
    ensures
        payload_text(action_of(kind, payload, fields)->Ok_0) == payload,
        action_of(kind, payload, fields)->Ok_0.kind() == kind,
{
}

/// A number is its spelling: its digits in base ten, a minus in front of a
/// negative one, and no two numbers share one.
pub proof fn lemma_a_number_is_its_spelling(a: int, b: int)
    ensures
        a >= 0 ==> crate::scan::digits_value(signed_text(a)) == a && crate::scan::all_digits(
            signed_text(a),
        ),
        a < 0 ==> signed_text(a)[0] == '-' && crate::scan::digits_value(signed_text(a).skip(1))
            == -a,
        signed_text(a) == signed_text(b) ==> a == b,
{
    let (x, y) = (signed_text(a), signed_text(b));
    if a < 0 {
        crate::scan::lemma_decimal_round_trip((-a) as nat);
        assert(x.skip(1) =~= decimal_text((-a) as nat));
    } else {
        crate::scan::lemma_decimal_round_trip(a as nat);
    }
    if b < 0 {
        crate::scan::lemma_decimal_round_trip((-b) as nat);
        assert(y.skip(1) =~= decimal_text((-b) as nat));
    } else {
        crate::scan::lemma_decimal_round_trip(b as nat);
    }
    if x == y && a < 0 && b >= 0 {
        assert(crate::scan::all_digits(y));
        assert(y[0] == '-');
    }
    if x == y && b < 0 && a >= 0 {
        assert(crate::scan::all_digits(x));
        assert(x[0] == '-');
    }
}

/// A payload names its version, and holds each value of its action under
/// the name of that value: the public id under `seq`, the collection an
/// item goes to under `to`, a body under `object`.
pub proof fn lemma_a_payload_names_its_values(action: ActionView)
    ensures
        ({
            let fields = action_fields(action);
            &&& number_in(fields, "v"@) == Some(1i64)
            &&& action matches ActionView::SetFlags { seq, flags } ==> number_in(fields, "seq"@)
                == Some(seq) && (field_in(fields, "flags"@) is Some)
            &&& action matches ActionView::Remove { seq } ==> number_in(fields, "seq"@) == Some(seq)
            &&& action matches ActionView::Move { seq, to } ==> number_in(fields, "seq"@) == Some(
                seq,
            ) && field_in(fields, "to"@) == Some(FieldView::Text(to))
            &&& action matches ActionView::Copy { seq, to } ==> number_in(fields, "seq"@) == Some(
                seq,
            ) && field_in(fields, "to"@) == Some(FieldView::Text(to))
            &&& action matches ActionView::Update { seq, object } ==> number_in(fields, "seq"@)
                == Some(seq) && field_in(fields, "object"@) == Some(FieldView::Text(object))
            &&& action matches ActionView::Add { link_id, object, handle, .. } ==> (
            link_id matches Some(link) ==> field_in(fields, "link_id"@) == Some(
                FieldView::Text(link),
            )) && (object matches Some(hash) ==> field_in(fields, "object"@) == Some(
                FieldView::Text(hash),
            )) && (handle matches Some(handle) ==> field_in(fields, "handle"@) == Some(
                FieldView::Text(handle),
            ))
        }),
{
    lemma_names_apart();
    lemma_action_lookups(action, "v"@);
    lemma_action_lookups(action, "seq"@);
    lemma_action_lookups(action, "flags"@);
    lemma_action_lookups(action, "object"@);
    lemma_action_lookups(action, "handle"@);
    lemma_action_lookups(action, "link_id"@);
    lemma_action_lookups(action, "to"@);
}

/// A payload of another version, or of none, is refused whatever its kind,
/// and one that is no object is no payload.
pub proof fn lemma_another_version_is_refused(
    kind: Text,
    payload: Text,
    fields: Seq<(Text, FieldView)>,
)
    requires
        number_in(fields, "v"@) != Some(1i64),
    ensures
        action_of(kind, payload, Some(fields)) == Err::<ActionView, ActionErrorView>(
            ActionErrorView::UnknownVersion(number_in(fields, "v"@)),
        ),
        action_of(kind, payload, None) == Err::<ActionView, ActionErrorView>(ActionErrorView::Json),
{
}

/// An action on an item names it: a payload of such a kind without a
/// public id is refused for it, as a move or a copy is without a target
/// and an update without a body.
pub proof fn lemma_an_incomplete_payload_is_refused(
    kind: Text,
    payload: Text,
    fields: Seq<(Text, FieldView)>,
)
    requires
        number_in(fields, "v"@) == Some(1i64),
    ensures
        number_in(fields, "seq"@) is None && (kind == "set-flags"@ || kind == "remove"@ || kind
            == "move"@ || kind == "copy"@ || kind == "update"@) ==> action_of(
            kind,
            payload,
            Some(fields),
        ) == Err::<ActionView, ActionErrorView>(ActionErrorView::MissingField("seq"@)),
        number_in(fields, "seq"@) is Some && !(field_in(fields, "to"@) matches Some(
            FieldView::Text(_),
        )) && (kind == "move"@ || kind == "copy"@) ==> action_of(kind, payload, Some(fields))
            == Err::<ActionView, ActionErrorView>(ActionErrorView::MissingField("to"@)),
        number_in(fields, "seq"@) is Some && !(field_in(fields, "object"@) matches Some(
            FieldView::Text(_),
        )) && kind == "update"@ ==> action_of(kind, payload, Some(fields)) == Err::<
            ActionView,
            ActionErrorView,
        >(ActionErrorView::MissingField("object"@)),
{
    lemma_kinds_apart();
}

/// A flag set that is not stated, or stated as nothing, is unknown; one
/// stated as a list holds the strings of the list and no other, and an
/// empty list is a known set of none.
pub proof fn lemma_a_stated_flag_set_holds_its_strings(items: Seq<Option<Text>>, flag: Text)
    ensures
        flags_in(None) is None,
        flags_in(Some(FieldView::Null)) is None,
        flags_in(Some(FieldView::List(items))) matches Some(flags) && (flags.contains(flag)
            <==> items.contains(Some(flag))),
{
    lemma_the_strings_of_a_list(items, flag);
}

proof fn lemma_the_strings_of_a_list(items: Seq<Option<Text>>, flag: Text)
    ensures
        strings_in(items).contains(flag) <==> items.contains(Some(flag)),
    decreases items.len(),
{
    if items.len() > 0 {
        let rest = items.drop_last();
        let before = strings_in(rest);
        let all = strings_in(items);
        let last = items.len() - 1;
        lemma_the_strings_of_a_list(rest, flag);
        if all.contains(flag) {
            let k = choose|k: int| 0 <= k < all.len() && all[k] == flag;
            if k < before.len() {
                assert(before[k] == flag);
                let i = choose|i: int| 0 <= i < rest.len() && rest[i] == Some(flag);
                assert(items[i] == Some(flag));
            } else {
                assert(items[last] == Some(flag));
            }
        }
        if items.contains(Some(flag)) {
            let i = choose|i: int| 0 <= i < items.len() && items[i] == Some(flag);
            if i < last {
                assert(rest[i] == Some(flag));
                let k = choose|k: int| 0 <= k < before.len() && before[k] == flag;
                assert(all[k] == flag);
            } else {
                assert(all[all.len() - 1] == flag);
            }
        }
    }
}

} // verus!

//! # Changes and writes
//!
//! The outbound change the engine asks the consumer to push to the
//! remote, and the inbound write it asks it to persist.
//!
//! A move is two halves, a create in the target and a remove of the
//! source, each derived by its own collection's sync in either order.
//! Both can deliver the item, so the remove carries the link id its
//! destination receives and a consumer relocates only while it is absent.

use crate::collection::{PimdirCheckpoint, PimdirCollectionId};
use crate::fnv::{fnv_fold, fnv_start, hex_digits, hex_text, lemma_fold_concat, Fnv};
use crate::object::{ObjectView, PimdirHash, PimdirObject};
use crate::placement::{
    OriginView, PimdirFlags, PimdirHandle, PimdirLinkId, PimdirOrigin, PimdirPlacement,
    PlacementView,
};
use crate::text::{clone_bytes, Text};
use crate::text_map::in_order;
use vstd::bytes::*;
use vstd::string::*;
use vstd::utf8::*;
use vstd::prelude::*;

verus! {

/// What a change asks the remote to do.
///
/// Membership is add or remove only. An add reuses a server-side copy or
/// move when it carries an origin, else it uploads the stored body.
#[allow(inconsistent_fields)]
#[derive(Debug, PartialEq, Eq)]
pub enum PimdirChangeKind {
    /// Add a member under a provisional `handle` the push reconciles.
    Add {
        /// The provisional handle the member is staged under locally.
        handle: PimdirHandle,
        /// The item identity when resolved, telling a retried add it landed.
        link_id: Option<PimdirLinkId>,
        /// The flag set to create the member with.
        flags: PimdirFlags,
        /// Where the body already lives, `None` for an append of `object`.
        origin: Option<PimdirOrigin>,
        /// The stored body to upload when there is no `origin`.
        object: Option<PimdirHash>,
    },
    /// Remove a member, moving it into `to` when set.
    Remove {
        /// The member to remove.
        handle: PimdirHandle,
        /// The move destination, or `None` for a delete.
        to: Option<PimdirCollectionId>,
        /// The item identity when resolved, the delivery key of a move.
        link_id: Option<PimdirLinkId>,
        /// The last-synced revision as a precondition (a WebDAV If-Match).
        if_match: Option<String>,
    },
    /// Replace a member's flag set.
    SetFlags {
        /// The member to update.
        handle: PimdirHandle,
        /// The new flag set.
        flags: PimdirFlags,
    },
    /// Replace a member's content in place with a locally edited body.
    Update {
        /// The member to update.
        handle: PimdirHandle,
        /// The hash of the new body in the object store.
        object: PimdirHash,
        /// The last-synced revision as a precondition (a WebDAV If-Match).
        if_match: Option<String>,
    },
}

/// What a [`PimdirChangeKind`] says, by value.
#[allow(inconsistent_fields)]
#[verifier::ext_equal]
pub enum ChangeKindView {
    Add { handle: Text, link_id: Option<Text>, flags: Option<Set<Text>>, origin: Option<OriginView>, object: Option<Text> },
    Remove { handle: Text, to: Option<Text>, link_id: Option<Text>, if_match: Option<Text> },
    SetFlags { handle: Text, flags: Option<Set<Text>> },
    Update { handle: Text, object: Text, if_match: Option<Text> },
}

impl View for PimdirChangeKind {
    type V = ChangeKindView;

    open spec fn view(&self) -> ChangeKindView {
        match *self {
            PimdirChangeKind::Add { handle, link_id, flags, origin, object } => ChangeKindView::Add {
                handle: handle@,
                link_id: link_id.deep_view(),
                flags: flags@,
                origin: origin.deep_view(),
                object: object.deep_view(),
            },
            PimdirChangeKind::Remove { handle, to, link_id, if_match } => ChangeKindView::Remove {
                handle: handle@,
                to: to.deep_view(),
                link_id: link_id.deep_view(),
                if_match: if_match.deep_view(),
            },
            PimdirChangeKind::SetFlags { handle, flags } => ChangeKindView::SetFlags {
                handle: handle@,
                flags: flags@,
            },
            PimdirChangeKind::Update { handle, object, if_match } => ChangeKindView::Update {
                handle: handle@,
                object: object@,
                if_match: if_match.deep_view(),
            },
        }
    }
}

impl DeepView for PimdirChangeKind {
    type V = ChangeKindView;

    open spec fn deep_view(&self) -> ChangeKindView {
        self@
    }
}

impl Clone for PimdirChangeKind {
    fn clone(&self) -> (copy: Self)
        ensures
            copy@ == self@,
    {
        match self {
            PimdirChangeKind::Add { handle, link_id, flags, origin, object } => PimdirChangeKind::Add {
                handle: handle.clone(),
                link_id: link_id.clone(),
                flags: flags.clone(),
                origin: origin.clone(),
                object: object.clone(),
            },
            PimdirChangeKind::Remove { handle, to, link_id, if_match } => PimdirChangeKind::Remove {
                handle: handle.clone(),
                to: to.clone(),
                link_id: link_id.clone(),
                if_match: if_match.clone(),
            },
            PimdirChangeKind::SetFlags { handle, flags } => PimdirChangeKind::SetFlags {
                handle: handle.clone(),
                flags: flags.clone(),
            },
            PimdirChangeKind::Update { handle, object, if_match } => PimdirChangeKind::Update {
                handle: handle.clone(),
                object: object.clone(),
                if_match: if_match.clone(),
            },
        }
    }
}

/// The idempotency key naming a derived change.
///
/// Sixteen lowercase hexadecimal characters, opaque to the engine. A
/// consumer records the keys it applied and recognises a replay.
#[derive(Debug, Eq, Ord, PartialOrd, Hash)]
pub struct PimdirChangeKey(pub String);

impl View for PimdirChangeKey {
    type V = Text;

    open spec fn view(&self) -> Text {
        self.0@
    }
}

impl DeepView for PimdirChangeKey {
    type V = Text;

    open spec fn deep_view(&self) -> Text {
        self@
    }
}

impl Clone for PimdirChangeKey {
    fn clone(&self) -> (copy: Self)
        ensures
            copy == *self,
    {
        PimdirChangeKey(self.0.clone())
    }
}

impl PartialEq for PimdirChangeKey {
    fn eq(&self, other: &Self) -> (same: bool) {
        self.0 == other.0
    }
}

impl vstd::std_specs::cmp::PartialEqSpecImpl for PimdirChangeKey {
    open spec fn obeys_eq_spec() -> bool {
        true
    }

    open spec fn eq_spec(&self, other: &Self) -> bool {
        self@ == other@
    }
}

impl From<String> for PimdirChangeKey {
    fn from(id: String) -> (made: Self)
        ensures
            made@ == id@,
    {
        PimdirChangeKey(id)
    }
}

impl vstd::std_specs::convert::FromSpecImpl<String> for PimdirChangeKey {
    open spec fn obeys_from_spec() -> bool {
        true
    }

    open spec fn from_spec(id: String) -> Self {
        PimdirChangeKey(id)
    }
}

impl From<&str> for PimdirChangeKey {
    fn from(id: &str) -> (made: Self)
        ensures
            made@ == id@,
    {
        PimdirChangeKey(id.to_owned())
    }
}

impl vstd::std_specs::convert::FromSpecImpl<&str> for PimdirChangeKey {
    open spec fn obeys_from_spec() -> bool {
        false
    }

    open spec fn from_spec(id: &str) -> Self {
        arbitrary()
    }
}

impl PimdirChangeKey {
    /// Borrows the id as a string slice.
    pub fn as_str(&self) -> (text: &str)
        ensures
            text@ == self@,
    {
        self.0.as_str()
    }
}

/// A change to push to the remote: what to do, and the key naming it.
///
/// Pushes are at-least-once: a crash between a serviced push and its
/// recording write replays the change, keyed the same.
#[derive(Debug, PartialEq, Eq)]
pub struct PimdirChange {
    /// What the remote is asked to do.
    pub kind: PimdirChangeKind,
    /// The idempotency key naming this change, derived by `new`.
    pub key: PimdirChangeKey,
}

/// What a [`PimdirChange`] says, by value.
#[verifier::ext_equal]
pub struct ChangeView {
    pub kind: ChangeKindView,
    pub key: Text,
}

impl View for PimdirChange {
    type V = ChangeView;

    open spec fn view(&self) -> ChangeView {
        ChangeView {
            kind: self.kind@,
            key: self.key@,
        }
    }
}

impl DeepView for PimdirChange {
    type V = ChangeView;

    open spec fn deep_view(&self) -> ChangeView {
        self@
    }
}

impl Clone for PimdirChange {
    fn clone(&self) -> (copy: Self)
        ensures
            copy@ == self@,
    {
        PimdirChange {
            kind: self.kind.clone(),
            key: self.key.clone(),
        }
    }
}

/// One field of a keyed message, terminated so two splits of one byte
/// string differ.
pub open spec fn field(bytes: Seq<u8>) -> Seq<u8> {
    bytes.push(0)
}

/// An optional field, its presence a field of its own.
pub open spec fn option_field(text: Option<Text>) -> Seq<u8> {
    match text {
        Some(text) => field(encode_utf8("1"@)) + field(encode_utf8(text)),
        None => field(encode_utf8("0"@)),
    }
}

/// The markers of a list, a field each.
pub open spec fn flag_fields(flags: Seq<Text>) -> Seq<u8>
    decreases flags.len(),
{
    if flags.len() == 0 {
        Seq::empty()
    } else {
        flag_fields(flags.drop_last()) + field(encode_utf8(flags.last()))
    }
}

/// A flag set: how many markers, then each in order, an unknown set apart
/// from an empty one.
pub open spec fn flags_fields(flags: Option<Set<Text>>) -> Seq<u8> {
    match flags {
        None => field(encode_utf8("unknown"@)),
        Some(flags) => field(encode_utf8("known"@)) + field(
            spec_u64_to_le_bytes(in_order(flags).len() as u64),
        ) + flag_fields(in_order(flags)),
    }
}

/// Where a create's body lives.
pub open spec fn origin_fields(origin: Option<OriginView>) -> Seq<u8> {
    match origin {
        Some(origin) => field(encode_utf8("1"@)) + field(encode_utf8(origin.collection)) + field(
            encode_utf8(origin.handle),
        ),
        None => field(encode_utf8("0"@)),
    }
}

/// The member a change acts on.
pub open spec fn member_of(kind: ChangeKindView) -> Text {
    match kind {
        ChangeKindView::Add { handle, .. } => handle,
        ChangeKindView::Remove { handle, .. } => handle,
        ChangeKindView::SetFlags { handle, .. } => handle,
        ChangeKindView::Update { handle, .. } => handle,
    }
}

/// What a change makes true of its member, a precondition left out.
pub open spec fn target_fields(kind: ChangeKindView) -> Seq<u8> {
    match kind {
        ChangeKindView::Add { handle, link_id, flags, origin, object } => field(
            encode_utf8("add"@),
        ) + option_field(link_id) + flags_fields(flags) + origin_fields(origin) + option_field(
            object,
        ),
        ChangeKindView::Remove { handle, to, link_id, if_match } => field(encode_utf8("remove"@))
            + option_field(to),
        ChangeKindView::SetFlags { handle, flags } => field(encode_utf8("set-flags"@))
            + flags_fields(flags),
        ChangeKindView::Update { handle, object, if_match } => field(encode_utf8("update"@))
            + field(encode_utf8(object)),
    }
}

/// The message a change is keyed by: the collection, the member, the kind
/// and the target state.
pub open spec fn change_message(collection: Text, kind: ChangeKindView) -> Seq<u8> {
    field(encode_utf8(collection)) + field(encode_utf8(member_of(kind))) + target_fields(kind)
}

/// The key of a change: the digest of its message, in hexadecimal.
pub open spec fn change_key(collection: Text, kind: ChangeKindView) -> Text {
    hex_digits(fnv_fold(fnv_start(), change_message(collection, kind)) as nat, 16)
}

impl PimdirChange {
    /// Keys `kind` in `collection`, the only way a change is made.
    pub fn new(collection: &PimdirCollectionId, kind: PimdirChangeKind) -> (change: Self)
        ensures
            change@.kind == kind@,
            change@.key == change_key(collection@, kind@),
    {
        let key = kind.key(collection);
        PimdirChange { kind, key }
    }

    /// The member this change acts on.
    pub fn handle(&self) -> (handle: &PimdirHandle)
        ensures
            handle@ == member_of(self@.kind),
    {
        self.kind.handle()
    }
}

impl PimdirChangeKind {
    /// The member this change acts on.
    fn handle(&self) -> (handle: &PimdirHandle)
        ensures
            handle@ == member_of(self@),
    {
        match self {
            PimdirChangeKind::Add { handle, .. } => handle,
            PimdirChangeKind::Remove { handle, .. } => handle,
            PimdirChangeKind::SetFlags { handle, .. } => handle,
            PimdirChangeKind::Update { handle, .. } => handle,
        }
    }

    /// Derives this kind's idempotency key in `collection`.
    ///
    /// The key covers the collection, the handle, the kind and the target
    /// state the change makes true. A precondition is not part of it: a
    /// retry of one operation is one operation.
    fn key(&self, collection: &PimdirCollectionId) -> (key: PimdirChangeKey)
        ensures
            key@ == change_key(collection@, self@),
    {
        let mut digest = PimdirChangeDigest::new();
        digest.field(collection.as_str().as_bytes());
        digest.field(self.handle().as_str().as_bytes());
        match self {
            PimdirChangeKind::Add { link_id, flags, origin, object, .. } => {
                digest.field("add".as_bytes());
                digest.option(match link_id {
                    Some(link) => Some(link.as_str()),
                    None => None,
                });
                digest.flags(flags);
                digest.origin(origin);
                digest.option(match object {
                    Some(hash) => Some(hash.as_str()),
                    None => None,
                });
            },
            PimdirChangeKind::Remove { to, .. } => {
                digest.field("remove".as_bytes());
                digest.option(match to {
                    Some(to) => Some(to.as_str()),
                    None => None,
                });
            },
            PimdirChangeKind::SetFlags { flags, .. } => {
                digest.field("set-flags".as_bytes());
                digest.flags(flags);
            },
            PimdirChangeKind::Update { object, .. } => {
                digest.field("update".as_bytes());
                digest.field(object.as_str().as_bytes());
            },
        }
        assert(digest.message@ =~= change_message(collection@, self@));
        digest.finish()
    }
}

/// The digest a change is folded into to key it, with the message so far.
///
/// FNV-1a, sixty-four bits: an idempotency key needs determinism, not
/// resistance to a forged collision.
struct PimdirChangeDigest {
    state: Fnv,
    message: Ghost<Seq<u8>>,
}

impl PimdirChangeDigest {
    spec fn wf(&self) -> bool {
        self.state@ == fnv_fold(fnv_start(), self.message@)
    }

    fn new() -> (digest: Self)
        ensures
            digest.wf(),
            digest.message@ == Seq::<u8>::empty(),
    {
        PimdirChangeDigest { state: Fnv::new(), message: Ghost(Seq::empty()) }
    }

    /// Folds one field in, terminated so two splits of one byte string
    /// differ.
    fn field(&mut self, bytes: &[u8])
        requires
            old(self).wf(),
        ensures
            final(self).wf(),
            final(self).message@ == old(self).message@ + field(bytes@),
    {
        self.state.update(bytes);
        self.state.step(0);
        proof {
            lemma_fold_concat(fnv_start(), self.message@, bytes@);
            lemma_fold_concat(fnv_start(), self.message@ + bytes@, seq![0u8]);
            lemma_fold_concat(fnv_fold(fnv_start(), self.message@ + bytes@), Seq::empty(), seq![0u8]);
            assert(self.message@ + bytes@ + seq![0u8] =~= self.message@ + field(bytes@));
            self.message@ = self.message@ + field(bytes@);
        }
    }

    /// Folds an optional field in, presence keying on its own.
    fn option(&mut self, text: Option<&str>)
        requires
            old(self).wf(),
        ensures
            final(self).wf(),
            final(self).message@ == old(self).message@ + option_field(text.deep_view()),
    {
        let ghost before = self.message@;
        match text {
            Some(text) => {
                self.field("1".as_bytes());
                self.field(text.as_bytes());
            },
            None => {
                self.field("0".as_bytes());
            },
        }
        assert(self.message@ =~= before + option_field(text.deep_view()));
    }

    /// Folds where a body lives in.
    fn origin(&mut self, origin: &Option<PimdirOrigin>)
        requires
            old(self).wf(),
        ensures
            final(self).wf(),
            final(self).message@ == old(self).message@ + origin_fields(origin.deep_view()),
    {
        let ghost before = self.message@;
        match origin {
            Some(origin) => {
                self.field("1".as_bytes());
                self.field(origin.collection.as_str().as_bytes());
                self.field(origin.handle.as_str().as_bytes());
            },
            None => {
                self.field("0".as_bytes());
            },
        }
        assert(self.message@ =~= before + origin_fields(origin.deep_view()));
    }

    /// Folds a flag set in, length first, an unknown set apart from an
    /// empty one.
    fn flags(&mut self, flags: &PimdirFlags)
        requires
            old(self).wf(),
        ensures
            final(self).wf(),
            final(self).message@ == old(self).message@ + flags_fields(flags@),
    {
        let ghost before = self.message@;
        match flags {
            PimdirFlags::Unknown => {
                self.field("unknown".as_bytes());
            },
            PimdirFlags::Known(set) => {
                self.field("known".as_bytes());
                let n: usize = set.len();
                let count: Vec<u8> = u64_to_le_bytes(n as u64);
                self.field(count.as_slice());
                let ghost head = self.message@;
                let ghost list = set.list();
                let mut i: usize = 0;
                while i < n
                    invariant
                        i <= n,
                        n == list.len(),
                        list == set.list(),
                        self.wf(),
                        self.message@ =~= head + flag_fields(list.take(i as int)),
                    decreases n - i,
                {
                    proof {
                        assert(list.take(i + 1).drop_last() =~= list.take(i as int));
                        assert(list.take(i + 1).last() == list[i as int]);
                    }
                    self.field(set.at(i).as_str().as_bytes());
                    i = i + 1;
                }
                proof {
                    assert(list.take(n as int) =~= list);
                }
            },
        }
        assert(self.message@ =~= before + flags_fields(flags@));
    }

    fn finish(&self) -> (key: PimdirChangeKey)
        requires
            self.wf(),
        ensures
            key@ == hex_digits(fnv_fold(fnv_start(), self.message@) as nat, 16),
    {
        PimdirChangeKey(hex_text(self.state.value()))
    }
}

/// A precondition is not part of a key: a retry of one operation is one
/// operation.
pub proof fn lemma_precondition_is_not_keyed(
    collection: Text,
    handle: Text,
    object: Text,
    to: Option<Text>,
    link_id: Option<Text>,
    other_link: Option<Text>,
    before: Option<Text>,
    after: Option<Text>,
)
    ensures
        change_key(collection, ChangeKindView::Update { handle, object, if_match: before })
            == change_key(collection, ChangeKindView::Update { handle, object, if_match: after }),
        change_key(collection, ChangeKindView::Remove { handle, to, link_id, if_match: before })
            == change_key(
            collection,
            ChangeKindView::Remove { handle, to, link_id: other_link, if_match: after },
        ),
{
}

/// Why a placement is being dropped.
///
/// A storage sharing one item across sources has to tell these apart, or
/// a housekeeping drop becomes a delete elsewhere.
#[derive(Clone, Copy, Debug, PartialEq, Eq, Structural)]
pub enum PimdirDropReason {
    /// The item is gone, a confirmed delete or a vanished member.
    Deleted,
    /// Only this row is gone: a provisional handle an accepted add replaced.
    Superseded,
    /// Only this row is gone: a handle a rebuild renumbered, which is also
    /// the storage's signal to bump the collection's generation.
    Rekeyed,
}

/// A write to persist in local storage, applied atomically per batch.
#[derive(Debug, PartialEq, Eq)]
pub enum PimdirWriteOp {
    /// Insert or replace a placement.
    UpsertPlacement(PimdirPlacement),
    /// Drop a placement.
    DropPlacement {
        /// The owning collection.
        collection: PimdirCollectionId,
        /// The handle to drop.
        handle: PimdirHandle,
        /// Whether the item itself is gone, or only this row of it.
        reason: PimdirDropReason,
    },
    /// Store an object body.
    ///
    /// Storing takes no reference: the pointing upsert may ride in a later
    /// batch, so a storage must not collect the object at the commit.
    StoreObject {
        /// The object metadata.
        object: PimdirObject,
        /// The body bytes, `None` when the consumer persisted them already.
        body: Option<Vec<u8>>,
    },
    /// Set a collection's sync checkpoint.
    SetCheckpoint {
        /// The collection to checkpoint.
        collection: PimdirCollectionId,
        /// The new checkpoint.
        checkpoint: PimdirCheckpoint,
    },
}

/// What a [`PimdirWriteOp`] says, by value.
#[verifier::ext_equal]
pub enum WriteOpView {
    UpsertPlacement(PlacementView),
    DropPlacement { collection: Text, handle: Text, reason: PimdirDropReason },
    StoreObject { object: ObjectView, body: Option<Seq<u8>> },
    SetCheckpoint { collection: Text, checkpoint: Seq<u8> },
}

impl View for PimdirWriteOp {
    type V = WriteOpView;

    open spec fn view(&self) -> WriteOpView {
        match *self {
            PimdirWriteOp::UpsertPlacement(a) => WriteOpView::UpsertPlacement(a@),
            PimdirWriteOp::DropPlacement { collection, handle, reason } => WriteOpView::DropPlacement {
                collection: collection@,
                handle: handle@,
                reason: reason,
            },
            PimdirWriteOp::StoreObject { object, body } => WriteOpView::StoreObject {
                object: object@,
                body: body.deep_view(),
            },
            PimdirWriteOp::SetCheckpoint { collection, checkpoint } => WriteOpView::SetCheckpoint {
                collection: collection@,
                checkpoint: checkpoint@,
            },
        }
    }
}

impl DeepView for PimdirWriteOp {
    type V = WriteOpView;

    open spec fn deep_view(&self) -> WriteOpView {
        self@
    }
}

impl Clone for PimdirWriteOp {
    fn clone(&self) -> (copy: Self)
        ensures
            copy@ == self@,
    {
        match self {
            PimdirWriteOp::UpsertPlacement(a) => PimdirWriteOp::UpsertPlacement(a.clone()),
            PimdirWriteOp::DropPlacement { collection, handle, reason } => PimdirWriteOp::DropPlacement {
                collection: collection.clone(),
                handle: handle.clone(),
                reason: *reason,
            },
            PimdirWriteOp::StoreObject { object, body } => PimdirWriteOp::StoreObject {
                object: object.clone(),
                body: match body {
                    Some(bytes) => Some(clone_bytes(bytes)),
                    None => None,
                },
            },
            PimdirWriteOp::SetCheckpoint { collection, checkpoint } => PimdirWriteOp::SetCheckpoint {
                collection: collection.clone(),
                checkpoint: checkpoint.clone(),
            },
        }
    }
}

proof fn lemma_texts_encode_apart(a: Text, b: Text)
    requires
        encode_utf8(a) == encode_utf8(b),
    ensures
        a == b,
{
    encode_utf8_decode_utf8(a);
    encode_utf8_decode_utf8(b);
}

proof fn lemma_fields_apart(a: Seq<u8>, b: Seq<u8>)
    requires
        field(a) == field(b),
    ensures
        a == b,
{
    assert(field(a).drop_last() =~= a);
    assert(field(b).drop_last() =~= b);
}

proof fn lemma_same_around(before: Seq<u8>, a: Seq<u8>, b: Seq<u8>, after: Seq<u8>)
    requires
        before + a + after == before + b + after,
    ensures
        a == b,
{
    let x = before + a + after;
    let y = before + b + after;
    assert(x.len() == y.len());
    assert forall|i: int| 0 <= i < a.len() implies a[i] == b[i] by {
        assert(x[before.len() + i] == a[i]);
        assert(y[before.len() + i] == b[i]);
    }
    assert(a =~= b);
}

proof fn lemma_options_apart(a: Option<Text>, b: Option<Text>)
    requires
        option_field(a) == option_field(b),
    ensures
        a == b,
{
    reveal_strlit("0");
    reveal_strlit("1");
    is_ascii_chars_encode_utf8("0"@);
    is_ascii_chars_encode_utf8("1"@);
    assert(encode_utf8("0"@)[0] == '0' as u8 && encode_utf8("1"@)[0] == '1' as u8);
    assert(option_field(a)[0] == if a is Some {
        '1' as u8
    } else {
        '0' as u8
    });
    assert(option_field(b)[0] == if b is Some {
        '1' as u8
    } else {
        '0' as u8
    });
    if let (Some(x), Some(y)) = (a, b) {
        let head = field(encode_utf8("1"@));
        assert(head + field(encode_utf8(x)) + Seq::<u8>::empty() =~= option_field(a));
        assert(head + field(encode_utf8(y)) + Seq::<u8>::empty() =~= option_field(b));
        lemma_same_around(head, field(encode_utf8(x)), field(encode_utf8(y)), Seq::empty());
        lemma_fields_apart(encode_utf8(x), encode_utf8(y));
        lemma_texts_encode_apart(x, y);
    }
}

/// What a key digests tells two updates of a member to two bodies apart.
pub proof fn lemma_a_key_tells_the_body_of_an_update(
    collection: Text,
    handle: Text,
    a: Text,
    b: Text,
    revision: Option<Text>,
)
    requires
        a != b,
    ensures
        change_message(
            collection,
            ChangeKindView::Update { handle, object: a, if_match: revision },
        ) != change_message(
            collection,
            ChangeKindView::Update { handle, object: b, if_match: revision },
        ),
{
    let none = Seq::<u8>::empty();
    let update = field(encode_utf8(collection)) + field(encode_utf8(handle)) + field(
        encode_utf8("update"@),
    );
    assert(change_message(
        collection,
        ChangeKindView::Update { handle, object: a, if_match: revision },
    ) =~= update + field(encode_utf8(a)) + none);
    assert(change_message(
        collection,
        ChangeKindView::Update { handle, object: b, if_match: revision },
    ) =~= update + field(encode_utf8(b)) + none);
    if update + field(encode_utf8(a)) + none == update + field(encode_utf8(b)) + none {
        lemma_same_around(update, field(encode_utf8(a)), field(encode_utf8(b)), none);
        lemma_fields_apart(encode_utf8(a), encode_utf8(b));
        lemma_texts_encode_apart(a, b);
    }
}

/// What a key digests tells a removal apart from a move, and two moves by
/// where they go.
pub proof fn lemma_a_key_tells_the_destination_of_a_remove(
    collection: Text,
    handle: Text,
    x: Option<Text>,
    y: Option<Text>,
    link: Option<Text>,
    revision: Option<Text>,
)
    requires
        x != y,
    ensures
        change_message(
            collection,
            ChangeKindView::Remove { handle, to: x, link_id: link, if_match: revision },
        ) != change_message(
            collection,
            ChangeKindView::Remove { handle, to: y, link_id: link, if_match: revision },
        ),
{
    let none = Seq::<u8>::empty();
    let remove = field(encode_utf8(collection)) + field(encode_utf8(handle)) + field(
        encode_utf8("remove"@),
    );
    assert(change_message(
        collection,
        ChangeKindView::Remove { handle, to: x, link_id: link, if_match: revision },
    ) =~= remove + option_field(x) + none);
    assert(change_message(
        collection,
        ChangeKindView::Remove { handle, to: y, link_id: link, if_match: revision },
    ) =~= remove + option_field(y) + none);
    if remove + option_field(x) + none == remove + option_field(y) + none {
        lemma_same_around(remove, option_field(x), option_field(y), none);
        lemma_options_apart(x, y);
    }
}

/// What a key digests tells two creates apart that differ in their link
/// ids.
pub proof fn lemma_a_key_tells_the_link_of_an_add(
    collection: Text,
    handle: Text,
    x: Option<Text>,
    y: Option<Text>,
    flags: Option<Set<Text>>,
    origin: Option<OriginView>,
    object: Option<Text>,
)
    requires
        x != y,
    ensures
        change_message(
            collection,
            ChangeKindView::Add { handle, link_id: x, flags, origin, object },
        ) != change_message(
            collection,
            ChangeKindView::Add { handle, link_id: y, flags, origin, object },
        ),
{
    let add = field(encode_utf8(collection)) + field(encode_utf8(handle)) + field(
        encode_utf8("add"@),
    );
    let rest = flags_fields(flags) + origin_fields(origin) + option_field(object);
    assert(change_message(
        collection,
        ChangeKindView::Add { handle, link_id: x, flags, origin, object },
    ) =~= add + option_field(x) + rest);
    assert(change_message(
        collection,
        ChangeKindView::Add { handle, link_id: y, flags, origin, object },
    ) =~= add + option_field(y) + rest);
    if add + option_field(x) + rest == add + option_field(y) + rest {
        lemma_same_around(add, option_field(x), option_field(y), rest);
        lemma_options_apart(x, y);
    }
}

/// What a key digests tells two creates apart that differ in their bodies.
pub proof fn lemma_a_key_tells_the_body_of_an_add(
    collection: Text,
    handle: Text,
    x: Option<Text>,
    y: Option<Text>,
    flags: Option<Set<Text>>,
    origin: Option<OriginView>,
    link: Option<Text>,
)
    requires
        x != y,
    ensures
        change_message(
            collection,
            ChangeKindView::Add { handle, link_id: link, flags, origin, object: x },
        ) != change_message(
            collection,
            ChangeKindView::Add { handle, link_id: link, flags, origin, object: y },
        ),
{
    let none = Seq::<u8>::empty();
    let add = field(encode_utf8(collection)) + field(encode_utf8(handle)) + field(
        encode_utf8("add"@),
    ) + option_field(link) + flags_fields(flags) + origin_fields(origin);
    assert(change_message(
        collection,
        ChangeKindView::Add { handle, link_id: link, flags, origin, object: x },
    ) =~= add + option_field(x) + none);
    assert(change_message(
        collection,
        ChangeKindView::Add { handle, link_id: link, flags, origin, object: y },
    ) =~= add + option_field(y) + none);
    if add + option_field(x) + none == add + option_field(y) + none {
        lemma_same_around(add, option_field(x), option_field(y), none);
        lemma_options_apart(x, y);
    }
}

/// What a key digests tells two flag sets apart: an unknown one from any
/// known one, and two known ones that differ in how many flags they hold,
/// or in one flag alone.
pub proof fn lemma_a_key_tells_the_flags(
    collection: Text,
    handle: Text,
    flags: Set<Text>,
    more: Set<Text>,
    at: int,
)
    requires
        in_order(flags).len() <= u64::MAX,
        in_order(more).len() <= u64::MAX,
        in_order(flags).len() != in_order(more).len() || differ_at(
            in_order(flags),
            in_order(more),
            at,
        ),
    ensures
        change_message(collection, ChangeKindView::SetFlags { handle, flags: None })
            != change_message(collection, ChangeKindView::SetFlags { handle, flags: Some(flags) }),
        change_message(collection, ChangeKindView::SetFlags { handle, flags: Some(more) })
            != change_message(collection, ChangeKindView::SetFlags { handle, flags: Some(flags) }),
{
    let none = Seq::<u8>::empty();
    let set = field(encode_utf8(collection)) + field(encode_utf8(handle)) + field(
        encode_utf8("set-flags"@),
    );
    assert(change_message(collection, ChangeKindView::SetFlags { handle, flags: None }) =~= set
        + flags_fields(None) + none);
    assert(change_message(collection, ChangeKindView::SetFlags { handle, flags: Some(flags) })
        =~= set + flags_fields(Some(flags)) + none);
    assert(change_message(collection, ChangeKindView::SetFlags { handle, flags: Some(more) })
        =~= set + flags_fields(Some(more)) + none);
    lemma_flags_apart(flags, more, at);
    if set + flags_fields(None) + none == set + flags_fields(Some(flags)) + none {
        lemma_same_around(set, flags_fields(None), flags_fields(Some(flags)), none);
    }
    if set + flags_fields(Some(more)) + none == set + flags_fields(Some(flags)) + none {
        lemma_same_around(set, flags_fields(Some(more)), flags_fields(Some(flags)), none);
    }
}

/// Whether two lists differ in one place and agree in every other.
pub open spec fn differ_at(a: Seq<Text>, b: Seq<Text>, at: int) -> bool {
    &&& a.len() == b.len()
    &&& 0 <= at < a.len()
    &&& a[at] != b[at]
    &&& a.take(at) == b.take(at)
    &&& a.skip(at + 1) == b.skip(at + 1)
}

proof fn lemma_flag_fields_join(a: Seq<Text>, b: Seq<Text>)
    ensures
        flag_fields(a + b) == flag_fields(a) + flag_fields(b),
    decreases b.len(),
{
    if b.len() == 0 {
        assert(a + b =~= a);
        assert(flag_fields(a) + flag_fields(b) =~= flag_fields(a));
    } else {
        lemma_flag_fields_join(a, b.drop_last());
        assert((a + b).drop_last() =~= a + b.drop_last());
        assert((a + b).last() == b.last());
        assert(flag_fields(a + b) =~= flag_fields(a) + flag_fields(b));
    }
}

proof fn lemma_flag_fields_around(list: Seq<Text>, at: int)
    requires
        0 <= at < list.len(),
    ensures
        flag_fields(list) == flag_fields(list.take(at)) + field(encode_utf8(list[at]))
            + flag_fields(list.skip(at + 1)),
{
    let head = list.take(at).push(list[at]);
    assert(head + list.skip(at + 1) =~= list);
    assert(head.drop_last() =~= list.take(at));
    lemma_flag_fields_join(head, list.skip(at + 1));
}

proof fn lemma_flags_apart(flags: Set<Text>, more: Set<Text>, at: int)
    requires
        in_order(flags).len() <= u64::MAX,
        in_order(more).len() <= u64::MAX,
        in_order(flags).len() != in_order(more).len() || differ_at(
            in_order(flags),
            in_order(more),
            at,
        ),
    ensures
        flags_fields(None) != flags_fields(Some(flags)),
        flags_fields(Some(more)) != flags_fields(Some(flags)),
{
    reveal_strlit("unknown");
    reveal_strlit("known");
    is_ascii_chars_encode_utf8("unknown"@);
    is_ascii_chars_encode_utf8("known"@);
    assert(encode_utf8("unknown"@)[0] == 'u' as u8 && encode_utf8("known"@)[0] == 'k' as u8);
    assert(flags_fields(None)[0] == 'u' as u8);
    assert(flags_fields(Some(flags))[0] == 'k' as u8);
    if flags_fields(Some(more)) == flags_fields(Some(flags)) {
        lemma_sizes_apart(flags, more);
        let a = in_order(flags);
        let b = in_order(more);
        let head = field(encode_utf8("known"@)) + field(spec_u64_to_le_bytes(a.len() as u64));
        lemma_flag_fields_around(a, at);
        lemma_flag_fields_around(b, at);
        let before = head + flag_fields(a.take(at));
        let after = flag_fields(a.skip(at + 1));
        assert(flags_fields(Some(flags)) =~= before + field(encode_utf8(a[at])) + after);
        assert(flags_fields(Some(more)) =~= before + field(encode_utf8(b[at])) + after);
        lemma_same_around(before, field(encode_utf8(a[at])), field(encode_utf8(b[at])), after);
        lemma_fields_apart(encode_utf8(a[at]), encode_utf8(b[at]));
        lemma_texts_encode_apart(a[at], b[at]);
    }
}

/// What a key digests tells a create with an origin from one without.
pub proof fn lemma_a_key_tells_an_origin(
    collection: Text,
    handle: Text,
    flags: Option<Set<Text>>,
    link: Option<Text>,
    object: Option<Text>,
    origin: OriginView,
)
    ensures
        change_message(
            collection,
            ChangeKindView::Add { handle, link_id: link, flags, origin: None, object },
        ) != change_message(
            collection,
            ChangeKindView::Add { handle, link_id: link, flags, origin: Some(origin), object },
        ),
{
    reveal_strlit("0");
    reveal_strlit("1");
    is_ascii_chars_encode_utf8("0"@);
    is_ascii_chars_encode_utf8("1"@);
    assert(encode_utf8("0"@)[0] == '0' as u8 && encode_utf8("1"@)[0] == '1' as u8);
    let add = field(encode_utf8(collection)) + field(encode_utf8(handle)) + field(
        encode_utf8("add"@),
    ) + option_field(link) + flags_fields(flags);
    let tail = option_field(object);
    assert(origin_fields(None)[0] == '0' as u8);
    assert(origin_fields(Some(origin))[0] == '1' as u8);
    assert(change_message(
        collection,
        ChangeKindView::Add { handle, link_id: link, flags, origin: None, object },
    ) =~= add + origin_fields(None) + tail);
    assert(change_message(
        collection,
        ChangeKindView::Add { handle, link_id: link, flags, origin: Some(origin), object },
    ) =~= add + origin_fields(Some(origin)) + tail);
    if add + origin_fields(None) + tail == add + origin_fields(Some(origin)) + tail {
        lemma_same_around(add, origin_fields(None), origin_fields(Some(origin)), tail);
    }
}

/// What a key digests tells the same change in two collections apart, and
/// the same change of two members.
pub proof fn lemma_a_key_tells_the_place(
    kind: ChangeKindView,
    other: ChangeKindView,
    collection: Text,
    elsewhere: Text,
)
    requires
        collection != elsewhere,
        target_fields(kind) == target_fields(other),
        member_of(kind) != member_of(other),
    ensures
        change_message(collection, kind) != change_message(elsewhere, kind),
        change_message(collection, kind) != change_message(collection, other),
{
    let none = Seq::<u8>::empty();
    let body = field(encode_utf8(member_of(kind))) + target_fields(kind);
    assert(change_message(collection, kind) =~= none + field(encode_utf8(collection)) + body);
    assert(change_message(elsewhere, kind) =~= none + field(encode_utf8(elsewhere)) + body);
    if change_message(collection, kind) == change_message(elsewhere, kind) {
        lemma_same_around(
            none,
            field(encode_utf8(collection)),
            field(encode_utf8(elsewhere)),
            body,
        );
        lemma_fields_apart(encode_utf8(collection), encode_utf8(elsewhere));
        lemma_texts_encode_apart(collection, elsewhere);
    }
    let place = field(encode_utf8(collection));
    assert(change_message(collection, kind) =~= place + field(encode_utf8(member_of(kind)))
        + target_fields(kind));
    assert(change_message(collection, other) =~= place + field(encode_utf8(member_of(other)))
        + target_fields(kind));
    if change_message(collection, kind) == change_message(collection, other) {
        lemma_same_around(
            place,
            field(encode_utf8(member_of(kind))),
            field(encode_utf8(member_of(other))),
            target_fields(kind),
        );
        lemma_fields_apart(encode_utf8(member_of(kind)), encode_utf8(member_of(other)));
        lemma_texts_encode_apart(member_of(kind), member_of(other));
    }
}

proof fn lemma_sizes_apart(a: Set<Text>, b: Set<Text>)
    requires
        in_order(a).len() <= u64::MAX,
        in_order(b).len() <= u64::MAX,
        flags_fields(Some(a)) == flags_fields(Some(b)),
    ensures
        in_order(a).len() == in_order(b).len(),
{
    let m = in_order(a).len() as u64;
    let n = in_order(b).len() as u64;
    let x = spec_u64_to_le_bytes(m);
    let y = spec_u64_to_le_bytes(n);
    lemma_auto_spec_u64_to_from_le_bytes();
    assert(x.len() == 8 && y.len() == 8);
    let head = field(encode_utf8("known"@));
    let p = flags_fields(Some(a));
    let q = flags_fields(Some(b));
    assert forall|i: int| 0 <= i < 8 implies x[i] == y[i] by {
        assert(p[head.len() + i] == x[i]);
        assert(q[head.len() + i] == y[i]);
    }
    assert(x =~= y);
    assert(spec_u64_from_le_bytes(x) == m && spec_u64_from_le_bytes(y) == n);
}

} // verus!

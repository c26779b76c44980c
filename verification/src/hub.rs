//! # Multi-source hub
//!
//! Shared content with a last-synced base per source, so one logical
//! item can live on several sources (two servers, a server and a phone).
//!
//! A storage wrapping the hub projects a per-source placement and absorbs
//! the engine's writes back. A projection carries the shared content
//! against the source's own base, so a change another source folded in
//! reads as dirty here and the ordinary reconcile pushes it.
//!
//! Propagation thus falls out of the per-source merge with no cross-merge:
//! adds, flags and deletes travel the same way, and a cross-source content
//! conflict resolves by policy.

use crate::change::{PimdirDropReason, PimdirWriteOp, WriteOpView};
use crate::collection::PimdirCollectionId;
use crate::object::PimdirHash;
use crate::placement::{
    BaseView, PimdirBase, PimdirFlags, PimdirHandle, PimdirLevel, PimdirLinkId, PimdirOrigin,
    PimdirPlacement, PimdirSortKey, PimdirStatus, PlacementView,
};
use crate::summary::{PimdirSummary, SummaryView};
use crate::text::Text;
use crate::text_map::{
    ascending, in_order, lemma_ascending_distinct, lemma_same_entries, TextMap,
};
use vstd::prelude::*;
use vstd::string::*;

verus! {

/// A source of a shared item: one authoritative replica (`left`, `phone`).
#[derive(Debug, Eq, Ord, PartialOrd)]
pub struct PimdirSourceId(pub String);

impl View for PimdirSourceId {
    type V = Text;

    open spec fn view(&self) -> Text {
        self.0@
    }
}

impl DeepView for PimdirSourceId {
    type V = Text;

    open spec fn deep_view(&self) -> Text {
        self@
    }
}

impl Clone for PimdirSourceId {
    fn clone(&self) -> (copy: Self)
        ensures
            copy == *self,
    {
        PimdirSourceId(self.0.clone())
    }
}

impl PartialEq for PimdirSourceId {
    fn eq(&self, other: &Self) -> (same: bool) {
        self.0 == other.0
    }
}

impl vstd::std_specs::cmp::PartialEqSpecImpl for PimdirSourceId {
    open spec fn obeys_eq_spec() -> bool {
        true
    }

    open spec fn eq_spec(&self, other: &Self) -> bool {
        self@ == other@
    }
}

impl From<String> for PimdirSourceId {
    fn from(id: String) -> (made: Self)
        ensures
            made@ == id@,
    {
        PimdirSourceId(id)
    }
}

impl vstd::std_specs::convert::FromSpecImpl<String> for PimdirSourceId {
    open spec fn obeys_from_spec() -> bool {
        true
    }

    open spec fn from_spec(id: String) -> Self {
        PimdirSourceId(id)
    }
}

impl From<&str> for PimdirSourceId {
    fn from(id: &str) -> (made: Self)
        ensures
            made@ == id@,
    {
        PimdirSourceId(id.to_owned())
    }
}

impl vstd::std_specs::convert::FromSpecImpl<&str> for PimdirSourceId {
    open spec fn obeys_from_spec() -> bool {
        false
    }

    open spec fn from_spec(id: &str) -> Self {
        arbitrary()
    }
}

impl PimdirSourceId {
    /// Borrows the id as a string slice.
    pub fn as_str(&self) -> (text: &str)
        ensures
            text@ == self@,
    {
        self.0.as_str()
    }
}

/// One source's binding of a shared item: handle, bases and conflict state.
#[derive(Debug, PartialEq, Eq)]
pub struct PimdirBinding {
    /// The item's handle on this source.
    pub handle: PimdirHandle,
    /// The last state synced with this source; `None` until first reconciled.
    pub base: Option<PimdirBase>,
    /// Whether this source's own sync left the placement in conflict.
    ///
    /// Distinct from the item's own cross-source conflict. Set by a row
    /// carrying a divergence and cleared by one carrying none, so an edit
    /// resolves it.
    pub conflicted: bool,
    /// The remote revision observed when the conflict was recorded.
    ///
    /// `None` when not conflicted, or when the remote reports no revision.
    pub conflict_revision: Option<String>,
    /// The remote body at that revision, for the resolver to read locally.
    pub conflict_object: Option<PimdirHash>,
    /// The shared body this source last reconciled against.
    ///
    /// The base of the cross-source axis. `None` until first folded; the
    /// sync base stands in.
    pub shared_object: Option<PimdirHash>,
}

/// What a [`PimdirBinding`] says, by value.
#[verifier::ext_equal]
pub struct BindingView {
    pub handle: Text,
    pub base: Option<BaseView>,
    pub conflicted: bool,
    pub conflict_revision: Option<Text>,
    pub conflict_object: Option<Text>,
    pub shared_object: Option<Text>,
}

impl View for PimdirBinding {
    type V = BindingView;

    open spec fn view(&self) -> BindingView {
        BindingView {
            handle: self.handle@,
            base: self.base.deep_view(),
            conflicted: self.conflicted,
            conflict_revision: self.conflict_revision.deep_view(),
            conflict_object: self.conflict_object.deep_view(),
            shared_object: self.shared_object.deep_view(),
        }
    }
}

impl DeepView for PimdirBinding {
    type V = BindingView;

    open spec fn deep_view(&self) -> BindingView {
        self@
    }
}

impl Clone for PimdirBinding {
    fn clone(&self) -> (copy: Self)
        ensures
            copy@ == self@,
    {
        PimdirBinding {
            handle: self.handle.clone(),
            base: self.base.clone(),
            conflicted: self.conflicted,
            conflict_revision: self.conflict_revision.clone(),
            conflict_object: self.conflict_object.clone(),
            shared_object: self.shared_object.clone(),
        }
    }
}

/// How the hub resolves a cross-source content conflict.
///
/// Flags never conflict, they merge element-wise. Only mutable-content
/// backends conflict; immutable ones mint a new link id per body.
#[derive(Clone, Copy, Debug, PartialEq, Eq, Structural)]
pub enum PimdirHubConflict {
    /// Flag the item conflicted, keeping the shared body and the diverging one.
    Manual,
    /// Last-writer-wins: adopt the incoming body, overwriting the shared one.
    PreferIncoming,
    /// Keep the already-shared body, dropping the incoming one.
    PreferExisting,
}

impl Default for PimdirHubConflict {
    fn default() -> (policy: Self)
        ensures
            policy == PimdirHubConflict::Manual,
    {
        PimdirHubConflict::Manual
    }
}

/// A logical item shared across sources: content plus a binding per source.
#[derive(Debug, PartialEq, Eq)]
pub struct PimdirHubItem {
    /// The current flag set, shared by every source.
    pub flags: PimdirFlags,
    /// The current body, shared by every source; `None` until hydrated.
    pub object: Option<PimdirHash>,
    /// The current summary, shared by every source; `None` until fetched.
    pub summary: Option<PimdirSummary>,
    /// The current sort key, shared by every source; empty until derived.
    pub sort_key: PimdirSortKey,
    /// The highest level any source reached.
    ///
    /// The item's own only while it holds a body.
    pub level: PimdirLevel,
    /// Whether a source removed the item, propagating the delete to the rest.
    ///
    /// Never copied to a source lacking it. A later live upsert clears it,
    /// edit and add beating delete across sources.
    pub deleted: bool,
    /// Whether a manual cross-source conflict is unresolved.
    pub conflicted: bool,
    /// The diverging body a manual conflict recorded; `None` otherwise.
    pub conflict_object: Option<PimdirHash>,
    /// Per-source bindings, keyed by source id.
    pub sources: TextMap<PimdirBinding>,
}

/// What a [`PimdirHubItem`] says, by value.
#[verifier::ext_equal]
pub struct HubItemView {
    pub flags: Option<Set<Text>>,
    pub object: Option<Text>,
    pub summary: Option<SummaryView>,
    pub sort_key: Text,
    pub level: PimdirLevel,
    pub deleted: bool,
    pub conflicted: bool,
    pub conflict_object: Option<Text>,
    pub sources: Map<Text, BindingView>,
}

impl View for PimdirHubItem {
    type V = HubItemView;

    open spec fn view(&self) -> HubItemView {
        HubItemView {
            flags: self.flags@,
            object: self.object.deep_view(),
            summary: self.summary.deep_view(),
            sort_key: self.sort_key@,
            level: self.level,
            deleted: self.deleted,
            conflicted: self.conflicted,
            conflict_object: self.conflict_object.deep_view(),
            sources: self.sources@,
        }
    }
}

impl DeepView for PimdirHubItem {
    type V = HubItemView;

    open spec fn deep_view(&self) -> HubItemView {
        self@
    }
}

impl Clone for PimdirHubItem {
    fn clone(&self) -> (copy: Self)
        ensures
            copy@ == self@,
    {
        PimdirHubItem {
            flags: self.flags.clone(),
            object: self.object.clone(),
            summary: self.summary.clone(),
            sort_key: self.sort_key.clone(),
            level: self.level,
            deleted: self.deleted,
            conflicted: self.conflicted,
            conflict_object: self.conflict_object.clone(),
            sources: clone_bindings(&self.sources),
        }
    }
}

/// Copies the bindings of an item.
fn clone_bindings(bindings: &TextMap<PimdirBinding>) -> (copy: TextMap<PimdirBinding>)
    ensures
        copy@ == bindings@,
{
    let copy = bindings.clone();
    proof {
        assert forall|i: int| 0 <= i < bindings.values().len() implies (
        #[trigger] bindings.values()[i])@ == copy.values()[i]@ by {
            assert(cloned(bindings.values()[i], copy.values()[i]));
        }
        lemma_same_entries(*bindings, copy);
    }
    copy
}

/// The level an item can honestly claim: full only with a stored body.
pub open spec fn stored_level_of(item: HubItemView) -> PimdirLevel {
    if item.object is Some {
        item.level
    } else {
        item.level.lower(PimdirLevel::Meta)
    }
}

/// The shared half of a projection into `collection` under `handle`.
pub open spec fn shared_half(
    item: HubItemView,
    collection: Text,
    link: Text,
    handle: Text,
) -> PlacementView {
    PlacementView {
        collection,
        handle,
        link_id: Some(link),
        object: item.object,
        level: stored_level_of(item),
        summary: item.summary,
        sort_key: item.sort_key,
        flags: item.flags,
        status: PimdirStatus::Clean,
        conflict_revision: None,
        conflict_object: None,
        base: None,
        origin: None,
    }
}

/// How an item relates to what a source last synced of it. A recorded
/// conflict outranks the base comparison; a source never reconciled owes a
/// create; an item holding no body is no divergence of content.
pub open spec fn bound_status(item: HubItemView, binding: BindingView) -> PimdirStatus {
    if binding.conflicted {
        PimdirStatus::Conflict
    } else {
        match binding.base {
            None => PimdirStatus::Created,
            Some(base) => if base.flags == item.flags && (item.object is None || base.object
                == item.object) {
                PimdirStatus::Clean
            } else {
                PimdirStatus::Dirty
            },
        }
    }
}

/// The placement of an item a source holds, at a status.
pub open spec fn held_placement(
    item: HubItemView,
    binding: BindingView,
    collection: Text,
    link: Text,
    status: PimdirStatus,
) -> PlacementView {
    PlacementView {
        status,
        conflict_revision: binding.conflict_revision,
        conflict_object: binding.conflict_object,
        base: binding.base,
        ..shared_half(item, collection, link, binding.handle)
    }
}

/// What one item projects for a source.
///
/// An item no source holds is projected for nobody. A deleted one is a
/// tombstone where it is still held and nothing elsewhere. A live one is
/// held against the source's own base, and offered as a create to a
/// source lacking it, once a body can be pushed.
pub open spec fn item_projection(
    item: HubItemView,
    collection: Text,
    source: Text,
    link: Text,
) -> Option<PlacementView> {
    if item.sources.dom() =~= Set::<Text>::empty() {
        None
    } else if item.sources.dom().contains(source) {
        let binding = item.sources[source];
        Some(
            held_placement(
                item,
                binding,
                collection,
                link,
                if item.deleted {
                    PimdirStatus::Tombstone
                } else {
                    bound_status(item, binding)
                },
            ),
        )
    } else if item.deleted || item.object is None {
        None
    } else {
        Some(
            PlacementView {
                status: PimdirStatus::Created,
                level: PimdirLevel::Full,
                ..shared_half(item, collection, link, link + "\u{1}hub"@)
            },
        )
    }
}

/// What the named items project for a source, in the order named.
pub open spec fn projection(
    items: Map<Text, HubItemView>,
    collection: Text,
    source: Text,
    links: Seq<Text>,
) -> Seq<PlacementView>
    decreases links.len(),
{
    if links.len() == 0 {
        Seq::empty()
    } else {
        let rest = projection(items, collection, source, links.drop_last());
        match item_projection(items[links.last()], collection, source, links.last()) {
            Some(placement) => rest.push(placement),
            None => rest,
        }
    }
}

/// Whether a placement asks the store where its other half lives.
pub open spec fn asks_origin(status: PimdirStatus) -> bool {
    status == PimdirStatus::Created || status == PimdirStatus::Tombstone
}

/// Whether `made` is the bare placement with the origin `resolver` gave
/// for it, where its status asks for one.
pub open spec fn origin_resolved<F: FnMut(&PimdirPlacement) -> Option<PimdirOrigin>>(
    resolver: F,
    bare: PlacementView,
    made: PlacementView,
) -> bool {
    if asks_origin(bare.status) {
        exists|asked: PimdirPlacement, origin: Option<PimdirOrigin>|
            asked@ == bare && #[trigger] call_ensures(resolver, (&asked,), origin) && made
                == (PlacementView { origin: origin.deep_view(), ..bare })
    } else {
        made == bare
    }
}

impl PimdirHubItem {
    /// The level the item can honestly claim: full only with a stored body.
    ///
    /// The level is the high-water mark across sources; read as the fact
    /// it would strand an item whose body a content change dropped, an
    /// upgrade skipping whatever reads as full.
    pub fn stored_level(&self) -> (level: PimdirLevel)
        ensures
            level == stored_level_of(self@),
    {
        match self.object {
            Some(_) => self.level,
            None => self.level.min(PimdirLevel::Meta),
        }
    }

    /// The shared half of a projection into `collection` under `handle`.
    ///
    /// Status, base and conflict fields are the binding's to settle.
    fn project(
        &self,
        collection: &PimdirCollectionId,
        link: &str,
        handle: PimdirHandle,
    ) -> (placement: PimdirPlacement)
        ensures
            placement@ == shared_half(self@, collection@, link@, handle@),
    {
        PimdirPlacement {
            collection: collection.clone(),
            handle,
            link_id: Some(PimdirLinkId(link.to_owned())),
            object: self.object.clone(),
            level: self.stored_level(),
            summary: self.summary.clone(),
            sort_key: self.sort_key.clone(),
            flags: self.flags.clone(),
            status: PimdirStatus::Clean,
            conflict_revision: None,
            conflict_object: None,
            base: None,
            origin: None,
        }
    }
}

/// The multi-source hub: logical items keyed by link id.
#[derive(Debug, PartialEq, Eq)]
pub struct PimdirHub {
    /// The shared items, keyed by their cross-source link id.
    pub items: TextMap<PimdirHubItem>,
    /// How a cross-source content conflict is resolved.
    pub conflict: PimdirHubConflict,
}

/// What a [`PimdirHub`] says, by value.
#[verifier::ext_equal]
pub struct HubView {
    pub items: Map<Text, HubItemView>,
    pub conflict: PimdirHubConflict,
}

impl View for PimdirHub {
    type V = HubView;

    open spec fn view(&self) -> HubView {
        HubView { items: self.items@, conflict: self.conflict }
    }
}

impl Clone for PimdirHub {
    fn clone(&self) -> (copy: Self)
        ensures
            copy@ == self@,
    {
        let items = self.items.clone();
        proof {
            assert forall|i: int| 0 <= i < self.items.values().len() implies (
            #[trigger] self.items.values()[i])@ == items.values()[i]@ by {
                assert(cloned(self.items.values()[i], items.values()[i]));
            }
            lemma_same_entries(self.items, items);
        }
        PimdirHub { items, conflict: self.conflict }
    }
}

impl Default for PimdirHub {
    fn default() -> (hub: Self)
        ensures
            hub@ == (HubView {
                items: Map::<Text, HubItemView>::empty(),
                conflict: PimdirHubConflict::Manual,
            }),
    {
        PimdirHub { items: TextMap::new(), conflict: PimdirHubConflict::Manual }
    }
}

/// The diverging body a binding keeps: none unless it is in conflict.
pub open spec fn binding_left(placement: PlacementView, shared_object: Option<Text>) -> BindingView {
    BindingView {
        handle: placement.handle,
        base: placement.base,
        conflicted: placement.conflict_revision is Some,
        conflict_revision: placement.conflict_revision,
        conflict_object: if placement.conflict_revision is Some {
            placement.conflict_object
        } else {
            None
        },
        shared_object,
    }
}

/// The body a source last synced of an item.
pub open spec fn synced_body(item: HubItemView, source: Text) -> Option<Text> {
    if item.sources.dom().contains(source) {
        match item.sources[source].base {
            Some(base) => base.object,
            None => None,
        }
    } else {
        None
    }
}

/// The shared body a source last reconciled against, the body it last
/// synced standing in.
pub open spec fn agreed_body(item: HubItemView, source: Text) -> Option<Text> {
    if item.sources.dom().contains(source) && item.sources[source].shared_object is Some {
        item.sources[source].shared_object
    } else {
        synced_body(item, source)
    }
}

/// Whether an upsert carries an edit of its source: a body other than the
/// one last synced, or the end of a conflict whatever body it restates.
pub open spec fn source_edited(item: HubItemView, source: Text, placement: PlacementView) -> bool {
    placement.object != synced_body(item, source) || (item.sources.dom().contains(source)
        && item.sources[source].conflicted && placement.status != PimdirStatus::Conflict)
}

/// Whether the shared body moved since a source last reconciled.
pub open spec fn hub_moved(item: HubItemView, source: Text) -> bool {
    item.object != agreed_body(item, source)
}

/// The shared body after an upsert: an edit over a body that did not move
/// is adopted, and one over a body that did resolves by policy.
pub open spec fn reconciled(
    item: HubItemView,
    source: Text,
    placement: PlacementView,
    policy: PimdirHubConflict,
) -> HubItemView {
    let incoming = placement.object;
    let adopted = HubItemView {
        object: incoming,
        conflicted: false,
        conflict_object: None,
        ..item
    };
    if !source_edited(item, source, placement) || incoming == item.object {
        item
    } else if !hub_moved(item, source) {
        adopted
    } else if incoming is None || item.object is None {
        item
    } else {
        match policy {
            PimdirHubConflict::Manual => HubItemView {
                conflicted: true,
                conflict_object: incoming,
                ..item
            },
            PimdirHubConflict::PreferIncoming => adopted,
            PimdirHubConflict::PreferExisting => HubItemView {
                conflicted: false,
                conflict_object: None,
                ..item
            },
        }
    }
}

/// The item a placement founds where none was held.
pub open spec fn founded(placement: PlacementView) -> HubItemView {
    HubItemView {
        flags: placement.flags,
        object: placement.object,
        summary: placement.summary,
        sort_key: placement.sort_key,
        level: placement.level,
        deleted: false,
        conflicted: false,
        conflict_object: None,
        sources: Map::empty(),
    }
}

/// A set as read, or the one held while nothing was read.
pub open spec fn kept_flags(
    incoming: Option<Set<Text>>,
    held: Option<Set<Text>>,
) -> Option<Set<Text>> {
    if incoming is None {
        held
    } else {
        incoming
    }
}

/// An item after a tombstone: the delete is recorded, the binding kept and
/// no content adopted, while known flags ride along.
pub open spec fn buried(item: HubItemView, source: Text, placement: PlacementView) -> HubItemView {
    let agreed = if item.sources.dom().contains(source) {
        item.sources[source].shared_object
    } else {
        None
    };
    HubItemView {
        deleted: true,
        flags: kept_flags(placement.flags, item.flags),
        sources: item.sources.insert(source, binding_left(placement, agreed)),
        ..item
    }
}

/// An item with what a live placement says of it, its body and its level
/// aside. An unknown flag set, summary or sort key never erases a known
/// one.
pub open spec fn refreshed(item: HubItemView, placement: PlacementView) -> HubItemView {
    HubItemView {
        deleted: false,
        flags: kept_flags(placement.flags, item.flags),
        summary: if placement.summary is Some {
            placement.summary
        } else {
            item.summary
        },
        sort_key: if placement.sort_key.len() == 0 {
            item.sort_key
        } else {
            placement.sort_key
        },
        ..item
    }
}

/// The level an upsert leaves once the body is settled: a pull that dropped
/// the body lowers it to its own, anything else merges it as a maximum.
pub open spec fn level_left(
    item: HubItemView,
    settled: HubItemView,
    placement: PlacementView,
) -> PimdirLevel {
    if item.object is Some && settled.object is None {
        placement.level
    } else {
        item.level.higher(placement.level)
    }
}

/// An item after an upsert of a source.
pub open spec fn upserted(
    item: HubItemView,
    source: Text,
    placement: PlacementView,
    policy: PimdirHubConflict,
) -> HubItemView {
    if placement.status == PimdirStatus::Tombstone {
        buried(item, source, placement)
    } else {
        let settled = reconciled(refreshed(item, placement), source, placement, policy);
        let leveled = HubItemView { level: level_left(item, settled, placement), ..settled };
        HubItemView {
            level: stored_level_of(leveled),
            sources: settled.sources.insert(source, binding_left(placement, settled.object)),
            ..settled
        }
    }
}

/// An item after a source dropped a handle: the binding that holds it
/// goes, and a genuine delete is recorded.
pub open spec fn dropped(
    item: HubItemView,
    source: Text,
    handle: Text,
    reason: PimdirDropReason,
) -> HubItemView {
    if item.sources.dom().contains(source) && item.sources[source].handle == handle {
        HubItemView {
            deleted: item.deleted || reason == PimdirDropReason::Deleted,
            sources: item.sources.remove(source),
            ..item
        }
    } else {
        item
    }
}

/// A hub after one write of a source. Objects and checkpoints are the
/// storage's, and an unlinked placement is not hubbed yet.
pub open spec fn absorbed_one(hub: HubView, source: Text, op: WriteOpView) -> HubView {
    match op {
        WriteOpView::UpsertPlacement(placement) => match placement.link_id {
            None => hub,
            Some(link) => {
                let item = if hub.items.dom().contains(link) {
                    hub.items[link]
                } else {
                    founded(placement)
                };
                HubView {
                    items: hub.items.insert(link, upserted(item, source, placement, hub.conflict)),
                    ..hub
                }
            },
        },
        WriteOpView::DropPlacement { collection, handle, reason } => HubView {
            items: hub.items.map_values(|item: HubItemView| dropped(item, source, handle, reason)),
            ..hub
        },
        _ => hub,
    }
}

/// A hub after a source's writes, in order.
pub open spec fn absorbed(hub: HubView, source: Text, ops: Seq<WriteOpView>) -> HubView
    decreases ops.len(),
{
    if ops.len() == 0 {
        hub
    } else {
        absorbed_one(absorbed(hub, source, ops.drop_last()), source, ops.last())
    }
}

/// What each write says, by value.
pub open spec fn ops_view(ops: Seq<PimdirWriteOp>) -> Seq<WriteOpView> {
    ops.map_values(|op: PimdirWriteOp| op@)
}

impl PimdirHub {
    /// Projects the per-source placements a source's load should return.
    ///
    /// A bound item carries the shared content against the source's own
    /// base, so an unseen hub change reads dirty. A missing item projects
    /// a created append only once its body is held, so nothing fetches.
    pub fn project(
        &self,
        collection: &PimdirCollectionId,
        source: &PimdirSourceId,
    ) -> (placements: Vec<PimdirPlacement>)
        ensures
            placements.deep_view() == projection(
                self@.items,
                collection@,
                source@,
                in_order(self@.items.dom()),
            ),
    {
        let nowhere = |placement: &PimdirPlacement| -> (origin: Option<PimdirOrigin>)
            ensures
                origin is None,
            { None };
        let placements = self.project_with(collection, source, nowhere);
        proof {
            let bare = projection(self@.items, collection@, source@, in_order(self@.items.dom()));
            lemma_projection_is_bare(
                self@.items,
                collection@,
                source@,
                in_order(self@.items.dom()),
            );
            assert forall|i: int| 0 <= i < bare.len() implies placements.deep_view()[i] == bare[i] by {
                assert(origin_resolved(nowhere, bare[i], placements@[i]@));
                assert(bare[i].origin is None);
                assert((PlacementView { origin: None, ..bare[i] }) == bare[i]);
            }
            assert(placements.deep_view() =~= bare);
        }
        placements
    }

    /// The projection with what the store derives from its bindings: the
    /// origin a created placement carries, where `source` already binds
    /// the identity in another collection with the placement's body, so
    /// its push is a server-side copy; and the destination a tombstone
    /// carries, where `source` holds a pending create of the identity
    /// elsewhere, so its remove is a relocation.
    ///
    /// The resolver is asked for both statuses and answers by the
    /// placement's; the hub holds one collection and cannot. It is asked
    /// once for each such placement, in the order of the projection, and
    /// for no other. The contract tells what becomes of its answers; how
    /// often a closure was called is nothing a contract can speak of.
    pub fn project_with<F: FnMut(&PimdirPlacement) -> Option<PimdirOrigin>>(
        &self,
        collection: &PimdirCollectionId,
        source: &PimdirSourceId,
        mut origin: F,
    ) -> (placements: Vec<PimdirPlacement>)
        requires
            forall|placement: PimdirPlacement| #[trigger] call_requires(origin, (&placement,)),
        ensures
            ({
                let bare = projection(
                    self@.items,
                    collection@,
                    source@,
                    in_order(self@.items.dom()),
                );
                &&& placements.len() == bare.len()
                &&& forall|i: int|
                    0 <= i < bare.len() ==> #[trigger] origin_resolved(
                        origin,
                        bare[i],
                        placements@[i]@,
                    )
            }),
    {
        let ghost resolver = origin;
        let mut out: Vec<PimdirPlacement> = Vec::new();
        let n: usize = self.items.len();
        let ghost links = self.items.keys();
        let mut i: usize = 0;
        while i < n
            invariant
                i <= n,
                n == links.len(),
                links == self.items.keys(),
                origin == resolver,
                forall|placement: PimdirPlacement| #[trigger] call_requires(origin, (&placement,)),
                ({
                    let bare = projection(self@.items, collection@, source@, links.take(i as int));
                    &&& out.len() == bare.len()
                    &&& forall|j: int|
                        0 <= j < bare.len() ==> #[trigger] origin_resolved(
                            origin,
                            bare[j],
                            out@[j]@,
                        )
                }),
            decreases n - i,
        {
            let ghost before = projection(self@.items, collection@, source@, links.take(i as int));
            let ghost after = projection(self@.items, collection@, source@, links.take(i + 1));
            let link = self.items.key_at(i);
            let item = self.items.value_at(i);
            proof {
                assert(links.take(i + 1).drop_last() =~= links.take(i as int));
                assert(links.take(i + 1).last() == links[i as int]);
            }
            let bare = Self::item_placement(collection, source, link.as_str(), item);
            match bare {
                None => {},
                Some(bare) => {
                    assert(after =~= before.push(bare@));
                    let asks = match bare.status {
                        PimdirStatus::Created => true,
                        PimdirStatus::Tombstone => true,
                        _ => false,
                    };
                    if asks {
                        let found = origin(&bare);
                        let mut made = bare.clone();
                        made.origin = found;
                        assert(made@ == (PlacementView { origin: found.deep_view(), ..bare@ }));
                        assert(origin_resolved(origin, bare@, made@));
                        out.push(made);
                    } else {
                        out.push(bare);
                    }
                },
            }
            i = i + 1;
        }
        assert(links.take(n as int) =~= links);
        out
    }

    /// What one item projects for a source.
    fn item_placement(
        collection: &PimdirCollectionId,
        source: &PimdirSourceId,
        link: &str,
        item: &PimdirHubItem,
    ) -> (placement: Option<PimdirPlacement>)
        ensures
            placement.deep_view() == item_projection(item@, collection@, source@, link@),
    {
        // An item no source holds is retained by the store and projected
        // for nobody.
        if item.sources.is_empty() {
            return None;
        }
        match (item.deleted, item.sources.get(source.as_str())) {
            (true, Some(binding)) => Some(
                Self::tombstone_placement(collection, link, item, binding),
            ),
            (true, None) => None,
            (false, Some(binding)) => Some(Self::bound_placement(collection, link, item, binding)),
            (false, None) => Self::created_placement(collection, link, item),
        }
    }

    /// The placement for an item this source already holds.
    ///
    /// A recorded conflict outranks the base comparison, else the merge
    /// would re-derive the rejected push every run. A binding with no base
    /// was never reconciled with its remote, so it projects created. An
    /// item holding no body is no divergence on the content axis: this
    /// source owes nothing until a hydration gives the item a body again.
    fn bound_placement(
        collection: &PimdirCollectionId,
        link: &str,
        item: &PimdirHubItem,
        binding: &PimdirBinding,
    ) -> (placement: PimdirPlacement)
        ensures
            placement@ == held_placement(
                item@,
                binding@,
                collection@,
                link@,
                bound_status(item@, binding@),
            ),
    {
        let in_sync = match &binding.base {
            Some(base) => base.flags.same(&item.flags) && (item.object.is_none() || base.object
                == item.object),
            None => false,
        };
        let status = if binding.conflicted {
            PimdirStatus::Conflict
        } else if binding.base.is_none() {
            PimdirStatus::Created
        } else if in_sync {
            PimdirStatus::Clean
        } else {
            PimdirStatus::Dirty
        };
        let mut placement = item.project(collection, link, binding.handle.clone());
        placement.status = status;
        placement.conflict_revision = binding.conflict_revision.clone();
        placement.conflict_object = binding.conflict_object.clone();
        placement.base = binding.base.clone();
        placement
    }

    /// A tombstone for an item deleted elsewhere but still held here.
    ///
    /// The next sync pushes a remove. The content stays so an edit on the
    /// source's server can still resurrect it, and the binding's
    /// divergence stays since a delete elsewhere settles nothing here.
    fn tombstone_placement(
        collection: &PimdirCollectionId,
        link: &str,
        item: &PimdirHubItem,
        binding: &PimdirBinding,
    ) -> (placement: PimdirPlacement)
        ensures
            placement@ == held_placement(
                item@,
                binding@,
                collection@,
                link@,
                PimdirStatus::Tombstone,
            ),
    {
        let mut placement = item.project(collection, link, binding.handle.clone());
        placement.status = PimdirStatus::Tombstone;
        placement.base = binding.base.clone();
        placement.conflict_revision = binding.conflict_revision.clone();
        placement.conflict_object = binding.conflict_object.clone();
        placement
    }

    /// A created append for an item missing on this source.
    ///
    /// Staged only when the body is held, so it claims full and never
    /// triggers a fetch.
    fn created_placement(
        collection: &PimdirCollectionId,
        link: &str,
        item: &PimdirHubItem,
    ) -> (placement: Option<PimdirPlacement>)
        ensures
            placement.deep_view() == (if item@.object is None {
                None::<PlacementView>
            } else {
                Some(
                    PlacementView {
                        status: PimdirStatus::Created,
                        level: PimdirLevel::Full,
                        ..shared_half(item@, collection@, link@, link@ + "\u{1}hub"@)
                    },
                )
            }),
    {
        if item.object.is_none() {
            return None;
        }
        let mut handle = link.to_owned();
        handle.append("\u{1}hub");
        let mut placement = item.project(collection, link, PimdirHandle(handle));
        placement.status = PimdirStatus::Created;
        placement.level = PimdirLevel::Full;
        Some(placement)
    }

    /// Folds a source's sync writes back into the hub.
    ///
    /// An upsert adopts the reconciled content and refreshes the source's
    /// binding, and a drop removes the binding. An item left with no
    /// binding stays, for the store to retain.
    pub fn absorb(&mut self, source: &PimdirSourceId, writes: &[PimdirWriteOp])
        ensures
            final(self)@ == absorbed(old(self)@, source@, ops_view(writes@)),
    {
        let ghost start = self@;
        let ghost ops = ops_view(writes@);
        let mut i: usize = 0;
        while i < writes.len()
            invariant
                i <= writes.len(),
                ops == ops_view(writes@),
                self@ == absorbed(start, source@, ops.take(i as int)),
            decreases writes.len() - i,
        {
            proof {
                assert(ops.take(i + 1).drop_last() =~= ops.take(i as int));
                assert(ops.take(i + 1).last() == writes@[i as int]@);
            }
            match &writes[i] {
                PimdirWriteOp::UpsertPlacement(placement) => self.absorb_upsert(source, placement),
                PimdirWriteOp::DropPlacement { handle, reason, .. } => {
                    self.absorb_drop(source, handle, *reason)
                },
                PimdirWriteOp::StoreObject { .. } => {},
                PimdirWriteOp::SetCheckpoint { .. } => {},
            }
            i = i + 1;
        }
        assert(ops.take(i as int) =~= ops);
    }

    /// Folds one upsert in, refreshing the source's binding.
    ///
    /// An unlinked placement is not hubbed yet. A tombstone keeps its
    /// binding and adopts no content, so an edit elsewhere still
    /// resurrects it, while its known flags ride along. An unknown flag
    /// set or sort key never erases a known one, and the level falls only
    /// with the body.
    fn absorb_upsert(&mut self, source: &PimdirSourceId, placement: &PimdirPlacement)
        ensures
            final(self)@ == absorbed_one(
                old(self)@,
                source@,
                WriteOpView::UpsertPlacement(placement@),
            ),
    {
        let link: PimdirLinkId = match &placement.link_id {
            Some(link) => link.clone(),
            None => {
                return;
            },
        };
        let ghost before = self@;
        let policy = self.conflict;
        let mut item = match self.items.remove(link.as_str()) {
            Some(item) => item,
            None => {
                let item = PimdirHubItem {
                    flags: placement.flags.clone(),
                    object: placement.object.clone(),
                    summary: placement.summary.clone(),
                    sort_key: placement.sort_key.clone(),
                    level: placement.level,
                    deleted: false,
                    conflicted: false,
                    conflict_object: None,
                    sources: TextMap::new(),
                };
                assert(item@ == founded(placement@));
                item
            },
        };
        let ghost held = item@;
        if placement.status == PimdirStatus::Tombstone {
            let agreed = match item.sources.get(source.as_str()) {
                Some(binding) => binding.shared_object.clone(),
                None => None,
            };
            item.deleted = true;
            if !placement.flags.is_unknown() {
                item.flags = placement.flags.clone();
            }
            item.sources.insert(source.0.clone(), Self::binding_of(placement, agreed));
            assert(item@ == buried(held, source@, placement@));
        } else {
            item.deleted = false;
            if !placement.flags.is_unknown() {
                item.flags = placement.flags.clone();
            }
            if placement.summary.is_some() {
                item.summary = placement.summary.clone();
            }
            if !placement.sort_key.is_unknown() {
                item.sort_key = placement.sort_key.clone();
            }
            assert(item@ == refreshed(held, placement@));
            let hydrated = item.object.is_some();
            Self::reconcile_content(&mut item, source, placement, policy);
            // A pull that dropped the body lowers the level with it;
            // anything else merges it as a maximum.
            if hydrated && item.object.is_none() {
                item.level = placement.level;
            } else {
                item.level = item.level.max(placement.level);
            }
            item.level = item.stored_level();
            let agreed = item.object.clone();
            item.sources.insert(source.0.clone(), Self::binding_of(placement, agreed));
            assert(item@ == upserted(held, source@, placement@, policy));
        }
        self.items.insert(link.0, item);
        proof {
            assert(before.items.remove(link@).insert(link@, item@) =~= before.items.insert(
                link@,
                item@,
            ));
        }
    }

    /// The binding an upsert leaves for its source.
    ///
    /// The conflict is read from the divergence the row carries, not its
    /// status: the two agree everywhere but on a tombstone, which keeps
    /// the divergence its own server opened. A row carrying none clears it.
    fn binding_of(placement: &PimdirPlacement, shared_object: Option<PimdirHash>) -> (binding:
        PimdirBinding)
        ensures
            binding@ == binding_left(placement@, shared_object.deep_view()),
    {
        let conflicted = placement.conflict_revision.is_some();
        PimdirBinding {
            handle: placement.handle.clone(),
            base: placement.base.clone(),
            conflicted,
            conflict_revision: placement.conflict_revision.clone(),
            conflict_object: if conflicted {
                placement.conflict_object.clone()
            } else {
                None
            },
            shared_object,
        }
    }

    /// Reconciles the shared body against an incoming upsert by policy.
    ///
    /// The source edited when the upsert differs from its sync base, or it
    /// leaves a conflict whatever body it restates; the hub moved when the
    /// shared body differs from what this source last reconciled against.
    fn reconcile_content(
        item: &mut PimdirHubItem,
        source: &PimdirSourceId,
        placement: &PimdirPlacement,
        policy: PimdirHubConflict,
    )
        ensures
            final(item)@ == reconciled(old(item)@, source@, placement@, policy),
    {
        let ghost before = item@;
        let binding = item.sources.get(source.as_str());
        let prev: Option<PimdirHash> = match binding {
            Some(binding) => match &binding.base {
                Some(base) => base.object.clone(),
                None => None,
            },
            None => None,
        };
        let shared_with: Option<PimdirHash> = match binding {
            Some(binding) => binding.shared_object.clone(),
            None => None,
        };
        let agreed = match shared_with {
            Some(object) => Some(object),
            None => prev.clone(),
        };
        assert(prev.deep_view() == synced_body(before, source@));
        assert(agreed.deep_view() == agreed_body(before, source@));
        let resolving = match binding {
            Some(binding) => binding.conflicted && placement.status != PimdirStatus::Conflict,
            None => false,
        };
        let incoming = placement.object.clone();
        let edited = incoming != prev || resolving;
        let moved = item.object != agreed;
        let changed = incoming != item.object;
        assert(edited == source_edited(before, source@, placement@));
        assert(moved == hub_moved(before, source@));
        let diverged = edited && moved && changed && incoming.is_some() && item.object.is_some();
        if diverged {
            match policy {
                PimdirHubConflict::Manual => {
                    item.conflicted = true;
                    item.conflict_object = incoming;
                },
                PimdirHubConflict::PreferIncoming => {
                    item.object = incoming;
                    item.conflicted = false;
                    item.conflict_object = None;
                },
                PimdirHubConflict::PreferExisting => {
                    item.conflicted = false;
                    item.conflict_object = None;
                },
            }
        } else if edited && !moved && changed {
            item.object = incoming;
            item.conflicted = false;
            item.conflict_object = None;
        }
    }

    /// Unbinds the source; a genuine delete also marks the item deleted.
    fn absorb_drop(
        &mut self,
        source: &PimdirSourceId,
        handle: &PimdirHandle,
        reason: PimdirDropReason,
    )
        ensures
            forall|collection: Text| #[trigger] absorbed_one(
                old(self)@,
                source@,
                WriteOpView::DropPlacement { collection, handle: handle@, reason },
            ) == final(self)@,
    {
        let ghost before = self@;
        let n: usize = self.items.len();
        let ghost links = self.items.keys();
        let ghost change = |item: HubItemView| dropped(item, source@, handle@, reason);
        let mut i: usize = 0;
        while i < n
            invariant
                i <= n,
                n == links.len(),
                links == self.items.keys(),
                ascending(links),
                links == in_order(before.items.dom()),
                links.to_set() == before.items.dom(),
                self@.items.dom() == before.items.dom(),
                self.conflict == before.conflict,
                change == (|item: HubItemView| dropped(item, source@, handle@, reason)),
                forall|link: Text|
                    before.items.dom().contains(link) ==> #[trigger] self@.items[link] == (if links.take(
                        i as int,
                    ).contains(link) {
                        change(before.items[link])
                    } else {
                        before.items[link]
                    }),
            decreases n - i,
        {
            let link = self.items.key_at(i).clone();
            let item = self.items.value_at(i);
            let bound_here = match item.sources.get(source.as_str()) {
                Some(binding) => binding.handle == *handle,
                None => false,
            };
            proof {
                crate::placement::lemma_take_contains(links, i as int);
                if links.take(i as int).contains(links[i as int]) {
                    let k = links.take(i as int).index_of(links[i as int]);
                    lemma_ascending_distinct(links, k, i as int);
                }
            }
            if bound_here {
                match self.items.remove(link.as_str()) {
                    Some(item) => {
                        let mut item = item;
                        let ghost held = item@;
                        item.deleted = item.deleted || reason == PimdirDropReason::Deleted;
                        let _ = item.sources.remove(source.as_str());
                        assert(item@ == dropped(held, source@, handle@, reason));
                        self.items.insert(link, item);
                        proof {
                            assert(self@.items.dom() =~= before.items.dom());
                        }
                    },
                    None => {},
                }
            }
            i = i + 1;
        }
        proof {
            assert(links.take(n as int) =~= links);
            assert forall|link: Text| before.items.dom().contains(link) implies links.contains(link) by {
                assert(links.to_set().contains(link));
            }
            assert forall|collection: Text| #[trigger] absorbed_one(
                before,
                source@,
                WriteOpView::DropPlacement { collection, handle: handle@, reason },
            ) == self@ by {
                assert(self@.items =~= before.items.map_values(change));
            }
        }
    }
}

/// What a hub projects carries no origin of its own.
proof fn lemma_projection_is_bare(
    items: Map<Text, HubItemView>,
    collection: Text,
    source: Text,
    links: Seq<Text>,
)
    ensures
        forall|i: int|
            0 <= i < projection(items, collection, source, links).len() ==> (#[trigger] projection(
                items,
                collection,
                source,
                links,
            )[i]).origin is None,
    decreases links.len(),
{
    if links.len() > 0 {
        lemma_projection_is_bare(items, collection, source, links.drop_last());
    }
}

/// A genuine delete on one source reads as a tombstone wherever else the
/// item is held, and as nothing on the source that dropped it.
pub proof fn lemma_delete_propagates(
    item: HubItemView,
    collection: Text,
    link: Text,
    gone: Text,
    other: Text,
    handle: Text,
)
    requires
        gone != other,
        item.sources.dom().contains(gone),
        item.sources[gone].handle == handle,
        item.sources.dom().contains(other),
    ensures
        ({
            let after = dropped(item, gone, handle, PimdirDropReason::Deleted);
            &&& item_projection(after, collection, gone, link) is None
            &&& item_projection(after, collection, other, link) == Some(
                held_placement(
                    after,
                    item.sources[other],
                    collection,
                    link,
                    PimdirStatus::Tombstone,
                ),
            )
        }),
{
    let after = dropped(item, gone, handle, PimdirDropReason::Deleted);
    assert(after.sources.dom().contains(other));
    assert(!after.sources.dom().contains(gone));
}

/// A drop that is not a delete takes one row away and deletes nothing:
/// every other source projects the item as it did.
pub proof fn lemma_superseded_row_deletes_nothing(
    item: HubItemView,
    collection: Text,
    link: Text,
    source: Text,
    other: Text,
    handle: Text,
    reason: PimdirDropReason,
)
    requires
        reason != PimdirDropReason::Deleted,
        source != other,
        item.sources.dom().contains(other),
    ensures
        dropped(item, source, handle, reason).deleted == item.deleted,
        item_projection(dropped(item, source, handle, reason), collection, other, link)
            == item_projection(item, collection, other, link),
{
    let after = dropped(item, source, handle, reason);
    assert(after.sources.dom().contains(other));
}

/// A source's writes leave every other source's binding of every item as
/// it was.
pub proof fn lemma_absorb_leaves_other_bindings(
    hub: HubView,
    source: Text,
    ops: Seq<WriteOpView>,
    link: Text,
    other: Text,
)
    requires
        source != other,
        hub.items.dom().contains(link),
    ensures
        absorbed(hub, source, ops).items.dom().contains(link),
        absorbed(hub, source, ops).items[link].sources.dom().contains(other)
            == hub.items[link].sources.dom().contains(other),
        hub.items[link].sources.dom().contains(other) ==> absorbed(
            hub,
            source,
            ops,
        ).items[link].sources[other] == hub.items[link].sources[other],
    decreases ops.len(),
{
    if ops.len() > 0 {
        lemma_absorb_leaves_other_bindings(hub, source, ops.drop_last(), link, other);
    }
}

/// A hub never forgets an item: what it held before a write it holds
/// after, for the store to retain once no source binds it.
pub proof fn lemma_absorb_keeps_every_item(
    hub: HubView,
    source: Text,
    ops: Seq<WriteOpView>,
    link: Text,
)
    requires
        hub.items.dom().contains(link),
    ensures
        absorbed(hub, source, ops).items.dom().contains(link),
        absorbed(hub, source, ops).conflict == hub.conflict,
    decreases ops.len(),
{
    if ops.len() > 0 {
        lemma_absorb_keeps_every_item(hub, source, ops.drop_last(), link);
    }
}

/// An item no source holds is projected for nobody.
pub proof fn lemma_unbound_item_is_not_projected(
    item: HubItemView,
    collection: Text,
    source: Text,
    link: Text,
)
    requires
        item.sources.dom() == Set::<Text>::empty(),
    ensures
        item_projection(item, collection, source, link) is None,
{
}

/// A source lacking an item is offered it only once a body can be pushed,
/// so an offer never makes anyone fetch.
pub proof fn lemma_offer_never_fetches(
    item: HubItemView,
    collection: Text,
    source: Text,
    link: Text,
)
    requires
        !item.sources.dom().contains(source),
    ensures
        item_projection(item, collection, source, link) matches Some(placement) ==> {
            &&& placement.status == PimdirStatus::Created
            &&& placement.object is Some
            &&& placement.level == PimdirLevel::Full
            &&& !item.deleted
        },
{
}

/// A live upsert clears a delete in flight, and a tombstone records one
/// while keeping the body every source shares.
pub proof fn lemma_live_upsert_beats_delete(
    item: HubItemView,
    source: Text,
    placement: PlacementView,
    policy: PimdirHubConflict,
)
    ensures
        upserted(item, source, placement, policy).deleted == (placement.status
            == PimdirStatus::Tombstone),
        placement.status == PimdirStatus::Tombstone ==> {
            let after = upserted(item, source, placement, policy);
            &&& after.object == item.object
            &&& after.conflicted == item.conflicted
            &&& after.sources.dom().contains(source)
        },
{
}

/// What was never read erases nothing: an unknown flag set and an empty
/// sort key leave the known ones, and a missing summary the held one.
pub proof fn lemma_unknown_erases_nothing(
    item: HubItemView,
    source: Text,
    placement: PlacementView,
    policy: PimdirHubConflict,
)
    ensures
        ({
            let after = upserted(item, source, placement, policy);
            &&& (placement.flags is None ==> after.flags == item.flags)
            &&& (placement.sort_key.len() == 0 ==> after.sort_key == item.sort_key)
            &&& (placement.summary is None ==> after.summary == item.summary)
        }),
{
}

/// A source cannot disagree with itself: over the body its own last
/// upsert left, its next edit is adopted, whatever the policy.
pub proof fn lemma_source_agrees_with_itself(
    item: HubItemView,
    source: Text,
    first: PlacementView,
    second: PlacementView,
    policy: PimdirHubConflict,
)
    requires
        first.status != PimdirStatus::Tombstone,
        second.status != PimdirStatus::Tombstone,
        upserted(item, source, first, policy).object is Some,
        second.object is Some,
        second.object != synced_body(upserted(item, source, first, policy), source),
    ensures
        ({
            let after = upserted(item, source, first, policy);
            let again = upserted(after, source, second, policy);
            &&& again.object == second.object
            &&& (again.object != after.object ==> !again.conflicted && again.conflict_object is None)
            &&& (again.object == after.object ==> again.conflicted == after.conflicted)
        }),
{
    let after = upserted(item, source, first, policy);
    assert(after.sources[source].shared_object == after.object);
    let fresh = refreshed(after, second);
    assert(!hub_moved(fresh, source));
}

/// Two sources that both moved from the body they agreed on diverge: a
/// manual hub keeps the shared body and records the other, an incoming one
/// takes the last writer's, an existing one keeps the shared.
pub proof fn lemma_divergence_resolves_by_policy(
    item: HubItemView,
    source: Text,
    placement: PlacementView,
    policy: PimdirHubConflict,
)
    requires
        placement.status != PimdirStatus::Tombstone,
        placement.object is Some,
        item.object is Some,
        placement.object != item.object,
        placement.object != synced_body(item, source),
        item.object != agreed_body(item, source),
    ensures
        ({
            let after = upserted(item, source, placement, policy);
            match policy {
                PimdirHubConflict::Manual => after.object == item.object && after.conflicted
                    && after.conflict_object == placement.object,
                PimdirHubConflict::PreferIncoming => after.object == placement.object
                    && !after.conflicted && after.conflict_object is None,
                PimdirHubConflict::PreferExisting => after.object == item.object
                    && !after.conflicted && after.conflict_object is None,
            }
        }),
{
    let fresh = refreshed(item, placement);
    assert(source_edited(fresh, source, placement));
    assert(hub_moved(fresh, source));
}

/// An item without a body never claims to be full.
pub proof fn lemma_no_body_is_not_full(
    item: HubItemView,
    source: Text,
    placement: PlacementView,
    policy: PimdirHubConflict,
    collection: Text,
    link: Text,
)
    ensures
        placement.status != PimdirStatus::Tombstone && upserted(
            item,
            source,
            placement,
            policy,
        ).object is None ==> upserted(item, source, placement, policy).level != PimdirLevel::Full,
        item_projection(item, collection, source, link) matches Some(made) ==> (made.object is None
            ==> made.level != PimdirLevel::Full),
{
}

/// The level is a high-water mark: an upsert that leaves the item a body
/// leaves its level no lower than it was, nor than the source reached; one
/// that took the body away leaves the level of the pull that did, and no
/// item is full without one.
pub proof fn lemma_a_kept_body_keeps_its_level(
    item: HubItemView,
    source: Text,
    placement: PlacementView,
    policy: PimdirHubConflict,
)
    ensures
        ({
            let after = upserted(item, source, placement, policy);
            &&& after.object is Some ==> after.level.rung() >= item.level.rung()
            &&& after.object is Some && placement.status != PimdirStatus::Tombstone
                ==> after.level == item.level.higher(placement.level)
            &&& item.object is Some && after.object is None ==> after.level
                == placement.level.lower(PimdirLevel::Meta)
        }),
{
    let fresh = refreshed(item, placement);
    let settled = reconciled(fresh, source, placement, policy);
    assert(settled.level == item.level);
}

/// What a source upserts it reads back: its handle, its base, its
/// divergence and the markers it knows.
pub proof fn lemma_upsert_projects_back(
    item: HubItemView,
    source: Text,
    placement: PlacementView,
    policy: PimdirHubConflict,
    collection: Text,
    link: Text,
)
    requires
        placement.flags is Some,
        placement.conflict_revision is None ==> placement.conflict_object is None,
    ensures
        item_projection(upserted(item, source, placement, policy), collection, source, link)
            matches Some(back) && {
            &&& back.handle == placement.handle
            &&& back.link_id == Some(link)
            &&& back.base == placement.base
            &&& back.flags == placement.flags
            &&& back.conflict_revision == placement.conflict_revision
            &&& back.conflict_object == placement.conflict_object
            &&& (placement.status == PimdirStatus::Tombstone <==> back.status
                == PimdirStatus::Tombstone)
            &&& (placement.status != PimdirStatus::Tombstone ==> (back.status
                == PimdirStatus::Conflict <==> placement.conflict_revision is Some))
        },
{
    let after = upserted(item, source, placement, policy);
    assert(after.sources.dom().contains(source));
}

/// An add propagates: an item one source brought in with a body is offered
/// to every source lacking it, as a create of what it says.
pub proof fn lemma_an_add_propagates(
    source: Text,
    placement: PlacementView,
    policy: PimdirHubConflict,
    other: Text,
    collection: Text,
    link: Text,
)
    requires
        source != other,
        placement.status != PimdirStatus::Tombstone,
        placement.object is Some,
    ensures
        item_projection(
            upserted(founded(placement), source, placement, policy),
            collection,
            other,
            link,
        ) matches Some(offer) && {
            &&& offer.status == PimdirStatus::Created
            &&& offer.link_id == Some(link)
            &&& offer.object == placement.object
            &&& offer.summary == placement.summary
            &&& offer.flags == placement.flags
            &&& offer.sort_key == placement.sort_key
            &&& offer.base is None
        },
{
    let after = upserted(founded(placement), source, placement, policy);
    assert(after.sources.dom().contains(source));
    assert(!after.sources.dom().contains(other));
}

/// A change propagates: what one source folds into a live item, every other
/// source holding it reads as its own content, measured against its own
/// base: pending where it differs from what that source last synced, and
/// nothing to do where it does not.
pub proof fn lemma_a_change_propagates(
    item: HubItemView,
    source: Text,
    placement: PlacementView,
    policy: PimdirHubConflict,
    other: Text,
    collection: Text,
    link: Text,
)
    requires
        source != other,
        placement.status != PimdirStatus::Tombstone,
        item.sources.dom().contains(other),
        !item.sources[other].conflicted,
        item.sources[other].base is Some,
    ensures
        ({
            let after = upserted(item, source, placement, policy);
            let base = item.sources[other].base->0;
            item_projection(after, collection, other, link) matches Some(seen) && {
                &&& seen.flags == after.flags
                &&& seen.object == after.object
                &&& seen.summary == after.summary
                &&& seen.handle == item.sources[other].handle
                &&& seen.base == Some(base)
                &&& (placement.flags is Some ==> seen.flags == placement.flags)
                &&& seen.status == (if base.flags == after.flags && (after.object is None
                    || base.object == after.object) {
                    PimdirStatus::Clean
                } else {
                    PimdirStatus::Dirty
                })
            }
        }),
{
    let after = upserted(item, source, placement, policy);
    assert(after.sources.dom().contains(other));
    assert(after.sources[other] == item.sources[other]);
}

/// A push settles what was pending: a source that pushed what it was
/// projected, and says so with a base at that content, changes nothing the
/// sources share and has nothing left to push.
pub proof fn lemma_a_push_settles(
    item: HubItemView,
    source: Text,
    pushed: PlacementView,
    policy: PimdirHubConflict,
    collection: Text,
    link: Text,
)
    requires
        !item.deleted,
        item_projection(item, collection, source, link) is Some,
        ({
            let seen = item_projection(item, collection, source, link)->0;
            &&& pushed.status == PimdirStatus::Clean
            &&& pushed.flags == seen.flags
            &&& pushed.object == seen.object
            &&& pushed.summary == seen.summary
            &&& pushed.sort_key == seen.sort_key
            &&& pushed.level == stored_level_of(item)
            &&& pushed.conflict_revision is None
            &&& pushed.base matches Some(base) && base.flags == seen.flags && base.object
                == seen.object
        }),
    ensures
        ({
            let after = upserted(item, source, pushed, policy);
            &&& after.flags == item.flags
            &&& after.object == item.object
            &&& after.summary == item.summary
            &&& after.sort_key == item.sort_key
            &&& after.deleted == item.deleted
            &&& after.conflicted == item.conflicted
            &&& after.conflict_object == item.conflict_object
            &&& after.level == stored_level_of(item)
            &&& item_projection(after, collection, source, link) matches Some(back)
                && back.status == PimdirStatus::Clean
        }),
{
    let after = upserted(item, source, pushed, policy);
    assert(after.sources.dom().contains(source));
    assert(after.sources[source] == binding_left(pushed, item.object));
}

/// What a live upsert states is what the item then says, whatever it said
/// before: a summary it carries, a sort key it derived, the flags it read;
/// and every source the item is projected for reads them.
pub proof fn lemma_a_live_upsert_is_taken_up(
    item: HubItemView,
    source: Text,
    placement: PlacementView,
    policy: PimdirHubConflict,
    other: Text,
    collection: Text,
    link: Text,
)
    requires
        placement.status != PimdirStatus::Tombstone,
    ensures
        ({
            let after = upserted(item, source, placement, policy);
            &&& placement.summary is Some ==> after.summary == placement.summary
            &&& placement.sort_key.len() > 0 ==> after.sort_key == placement.sort_key
            &&& placement.flags is Some ==> after.flags == placement.flags
            &&& item_projection(after, collection, other, link) matches Some(seen) ==> {
                &&& placement.summary is Some ==> seen.summary == placement.summary
                &&& placement.sort_key.len() > 0 ==> seen.sort_key == placement.sort_key
                &&& placement.flags is Some ==> seen.flags == placement.flags
            }
            &&& item_projection(after, collection, source, link) is Some
        }),
{
    let after = upserted(item, source, placement, policy);
    assert(after.sources.dom().contains(source));
}

/// A tombstone says nothing but the delete and the flags it knows: the
/// body, the summary, the sort key and the level stay, and so does what the
/// source agreed on.
pub proof fn lemma_a_tombstone_touches_no_content(
    item: HubItemView,
    source: Text,
    placement: PlacementView,
    policy: PimdirHubConflict,
)
    requires
        placement.status == PimdirStatus::Tombstone,
    ensures
        ({
            let after = upserted(item, source, placement, policy);
            &&& after.deleted
            &&& after.object == item.object
            &&& after.summary == item.summary
            &&& after.sort_key == item.sort_key
            &&& after.level == item.level
            &&& after.conflict_object == item.conflict_object
            &&& (placement.flags is Some ==> after.flags == placement.flags)
            &&& (placement.flags is None ==> after.flags == item.flags)
            &&& after.sources.dom() == item.sources.dom().insert(source)
            &&& after.sources[source].handle == placement.handle
            &&& after.sources[source].base == placement.base
            &&& (item.sources.dom().contains(source) ==> after.sources[source].shared_object
                == item.sources[source].shared_object)
        }),
{
    let after = upserted(item, source, placement, policy);
    assert(after.sources.dom() =~= item.sources.dom().insert(source));
}

/// A live upsert leaves its source bound as it said, agreeing on the body
/// the item then holds, and binds no other source.
pub proof fn lemma_a_live_upsert_binds_its_source(
    item: HubItemView,
    source: Text,
    placement: PlacementView,
    policy: PimdirHubConflict,
)
    requires
        placement.status != PimdirStatus::Tombstone,
    ensures
        ({
            let after = upserted(item, source, placement, policy);
            let binding = after.sources[source];
            &&& after.sources.dom() == item.sources.dom().insert(source)
            &&& binding.handle == placement.handle
            &&& binding.base == placement.base
            &&& binding.conflict_revision == placement.conflict_revision
            &&& binding.conflicted == placement.conflict_revision is Some
            &&& (binding.conflicted ==> binding.conflict_object == placement.conflict_object)
            &&& (!binding.conflicted ==> binding.conflict_object is None)
            &&& binding.shared_object == after.object
            &&& forall|other: Text|
                other != source && item.sources.dom().contains(other) ==> #[trigger] after.sources[other]
                    == item.sources[other]
        }),
{
    let after = upserted(item, source, placement, policy);
    assert(after.sources.dom() =~= item.sources.dom().insert(source));
}

/// The body a source edits over the one it agreed on is the item's: nobody
/// else moved it, so nothing is in dispute. The same goes for a pull that
/// found the body it synced gone.
pub proof fn lemma_an_edit_over_an_unmoved_body_is_adopted(
    item: HubItemView,
    source: Text,
    placement: PlacementView,
    policy: PimdirHubConflict,
)
    requires
        placement.status != PimdirStatus::Tombstone,
        item.sources.dom().contains(source),
        item.sources[source].shared_object is Some,
        item.sources[source].shared_object == item.object,
        item.sources[source].base matches Some(base) ==> placement.object != base.object,
        item.sources[source].base is None ==> placement.object is Some,
    ensures
        ({
            let after = upserted(item, source, placement, policy);
            &&& after.object == placement.object
            &&& (placement.object != item.object ==> !after.conflicted && after.conflict_object is None)
            &&& (placement.object == item.object ==> after.conflicted == item.conflicted)
        }),
{
}

/// A source that restates the body it synced edits nothing: what the
/// others made of the body stays, and so does a dispute over it.
pub proof fn lemma_a_restated_body_moves_nothing(
    item: HubItemView,
    source: Text,
    placement: PlacementView,
    policy: PimdirHubConflict,
)
    requires
        placement.status != PimdirStatus::Tombstone,
        item.sources.dom().contains(source),
        item.sources[source].base matches Some(base) && base.object == placement.object,
        !item.sources[source].conflicted || placement.status == PimdirStatus::Conflict,
    ensures
        ({
            let after = upserted(item, source, placement, policy);
            &&& after.object == item.object
            &&& after.conflicted == item.conflicted
            &&& after.conflict_object == item.conflict_object
        }),
{
}

/// Two edits over one agreed body dispute it: the body the item holds is
/// neither the one the source agreed on nor the one it brings. Where the
/// source has yet to agree on any, what it last synced stands in.
pub proof fn lemma_two_edits_dispute_a_body(
    item: HubItemView,
    source: Text,
    placement: PlacementView,
    policy: PimdirHubConflict,
    agreed: Option<Text>,
    synced: Option<Text>,
)
    requires
        placement.status != PimdirStatus::Tombstone,
        synced == (if item.sources.dom().contains(source) && item.sources[source].base is Some {
            item.sources[source].base->0.object
        } else {
            None
        }),
        agreed == (if item.sources.dom().contains(source) && item.sources[source].shared_object is Some {
            item.sources[source].shared_object
        } else {
            synced
        }),
        placement.object is Some,
        item.object is Some,
        placement.object != item.object,
        placement.object != synced,
        item.object != agreed,
    ensures
        ({
            let after = upserted(item, source, placement, policy);
            &&& policy == PimdirHubConflict::Manual ==> after.object == item.object
                && after.conflicted && after.conflict_object == placement.object
            &&& policy == PimdirHubConflict::PreferIncoming ==> after.object == placement.object
                && !after.conflicted && after.conflict_object is None
            &&& policy == PimdirHubConflict::PreferExisting ==> after.object == item.object
                && !after.conflicted && after.conflict_object is None
        }),
{
}

/// The end of a conflict is an edit even where it restates the body last
/// synced: over a body nobody moved since, it stands.
pub proof fn lemma_a_resolution_is_an_edit(
    item: HubItemView,
    source: Text,
    placement: PlacementView,
    policy: PimdirHubConflict,
)
    requires
        placement.status != PimdirStatus::Tombstone,
        placement.status != PimdirStatus::Conflict,
        item.sources.dom().contains(source),
        item.sources[source].conflicted,
        item.sources[source].shared_object is Some,
        item.sources[source].shared_object == item.object,
        placement.object is Some,
    ensures
        upserted(item, source, placement, policy).object == placement.object,
{
}

/// What a bound source reads of a live item is the item: its content, the
/// source's handle and base, and a status that tells them apart. It is a
/// conflict where the source diverged from its own remote, a create where
/// it never synced, and else pending exactly where the flags differ from
/// the base, or the item holds a body that the base does not.
pub proof fn lemma_a_projection_tells_the_item(
    item: HubItemView,
    collection: Text,
    source: Text,
    link: Text,
)
    requires
        item.sources.dom().contains(source),
    ensures
        item_projection(item, collection, source, link) matches Some(seen) && {
            let binding = item.sources[source];
            &&& seen.collection == collection
            &&& seen.link_id == Some(link)
            &&& seen.handle == binding.handle
            &&& seen.base == binding.base
            &&& seen.object == item.object
            &&& seen.summary == item.summary
            &&& seen.sort_key == item.sort_key
            &&& seen.flags == item.flags
            &&& seen.conflict_revision == binding.conflict_revision
            &&& seen.conflict_object == binding.conflict_object
            &&& (item.object is Some ==> seen.level == item.level)
            &&& (item.object is None ==> seen.level != PimdirLevel::Full)
            &&& (item.object is None && item.level != PimdirLevel::Full ==> seen.level
                == item.level)
            &&& (seen.status == PimdirStatus::Tombstone <==> item.deleted)
            &&& (!item.deleted ==> (seen.status == PimdirStatus::Conflict <==> binding.conflicted))
            &&& (!item.deleted && !binding.conflicted ==> (seen.status == PimdirStatus::Created
                <==> binding.base is None))
            &&& (!item.deleted && !binding.conflicted && binding.base is Some ==> (seen.status
                == PimdirStatus::Dirty <==> binding.base->0.flags != item.flags || (item.object is Some
                && binding.base->0.object != item.object)))
            &&& (!item.deleted && !binding.conflicted && binding.base is Some ==> (seen.status
                == PimdirStatus::Clean <==> binding.base->0.flags == item.flags && (item.object is None
                || binding.base->0.object == item.object)))
        },
{
}

/// A source lacking an item that another holds is offered it, whole, where
/// it is live and holds a body, and else nothing.
pub proof fn lemma_an_offer_is_the_item(
    item: HubItemView,
    collection: Text,
    source: Text,
    link: Text,
    holder: Text,
)
    requires
        item.sources.dom().contains(holder),
        !item.sources.dom().contains(source),
    ensures
        item_projection(item, collection, source, link) is Some <==> !item.deleted
            && item.object is Some,
        item_projection(item, collection, source, link) matches Some(offer) ==> {
            &&& offer.collection == collection
            &&& offer.link_id == Some(link)
            &&& offer.object == item.object
            &&& offer.summary == item.summary
            &&& offer.sort_key == item.sort_key
            &&& offer.flags == item.flags
            &&& offer.base is None
            &&& offer.conflict_revision is None
        },
{
}

/// A drop takes away the one binding that stands under the handle it names,
/// and nothing else of the item; it records a delete exactly where it is
/// one, and one recorded stays.
pub proof fn lemma_a_drop_takes_one_binding(
    item: HubItemView,
    source: Text,
    handle: Text,
    reason: PimdirDropReason,
)
    ensures
        ({
            let after = dropped(item, source, handle, reason);
            let bound = item.sources.dom().contains(source) && item.sources[source].handle
                == handle;
            &&& (!bound ==> after == item)
            &&& (bound ==> after.sources == item.sources.remove(source))
            &&& (bound ==> after.deleted == (item.deleted || reason == PimdirDropReason::Deleted))
            &&& after.object == item.object
            &&& after.summary == item.summary
            &&& after.flags == item.flags
            &&& after.sort_key == item.sort_key
            &&& after.level == item.level
            &&& after.conflicted == item.conflicted
            &&& after.conflict_object == item.conflict_object
        }),
{
}

/// A write of one placement is about one item: an upsert changes the item of
/// its identity and no other, an unlinked one changes none, and objects and
/// checkpoints are nothing to the hub.
pub proof fn lemma_a_write_is_about_its_item(
    hub: HubView,
    source: Text,
    op: WriteOpView,
    other: Text,
)
    requires
        op matches WriteOpView::UpsertPlacement(placement) ==> placement.link_id != Some(other),
        !(op is DropPlacement),
    ensures
        absorbed_one(hub, source, op).items.dom().contains(other) == hub.items.dom().contains(
            other,
        ),
        hub.items.dom().contains(other) ==> absorbed_one(hub, source, op).items[other]
            == hub.items[other],
        op matches WriteOpView::UpsertPlacement(placement) ==> (placement.link_id is None
            ==> absorbed_one(hub, source, op) == hub),
        op is StoreObject || op is SetCheckpoint ==> absorbed_one(hub, source, op) == hub,
{
}

/// Writes are absorbed one after another: absorbing two batches is
/// absorbing the one that joins them.
pub proof fn lemma_batches_are_absorbed_in_turn(
    hub: HubView,
    source: Text,
    a: Seq<WriteOpView>,
    b: Seq<WriteOpView>,
)
    ensures
        absorbed(hub, source, a + b) == absorbed(absorbed(hub, source, a), source, b),
    decreases b.len(),
{
    if b.len() == 0 {
        assert(a + b =~= a);
    } else {
        assert((a + b).drop_last() =~= a + b.drop_last());
        assert((a + b).last() == b.last());
        lemma_batches_are_absorbed_in_turn(hub, source, a, b.drop_last());
    }
}

/// A new item is what founded it: a live upsert of an identity the hub does
/// not hold leaves an item that says what the placement says.
pub proof fn lemma_a_founded_item_says_what_founded_it(
    hub: HubView,
    source: Text,
    placement: PlacementView,
    link: Text,
)
    requires
        !hub.items.dom().contains(link),
        placement.link_id == Some(link),
        placement.status != PimdirStatus::Tombstone,
    ensures
        ({
            let after = absorbed_one(hub, source, WriteOpView::UpsertPlacement(placement));
            let item = after.items[link];
            &&& after.items.dom() == hub.items.dom().insert(link)
            &&& item.object == placement.object
            &&& item.summary == placement.summary
            &&& item.sort_key == placement.sort_key
            &&& item.flags == placement.flags
            &&& (item.object is Some ==> item.level == placement.level)
            &&& !item.deleted
            &&& !item.conflicted
            &&& item.conflict_object is None
            &&& item.sources.dom() == Set::empty().insert(source)
        }),
{
    let after = absorbed_one(hub, source, WriteOpView::UpsertPlacement(placement));
    assert(after.items[link].sources.dom() =~= Set::empty().insert(source));
}

/// A projection names each item once, in the order of the identities, and
/// leaves out those alone that project nothing.
pub proof fn lemma_a_projection_names_each_item_once(
    items: Map<Text, HubItemView>,
    collection: Text,
    source: Text,
    links: Seq<Text>,
    k: int,
)
    requires
        0 <= k < links.len(),
    ensures
        item_projection(items[links[k]], collection, source, links[k]) matches Some(placement)
            ==> projection(items, collection, source, links).contains(placement),
        projection(items, collection, source, links).len() <= links.len(),
        forall|i: int|
            0 <= i < projection(items, collection, source, links).len() ==> exists|j: int|
                0 <= j < links.len() && item_projection(
                    items[links[j]],
                    collection,
                    source,
                    #[trigger] links[j],
                ) == Some(#[trigger] projection(items, collection, source, links)[i]),
    decreases links.len(),
{
    let rest = links.drop_last();
    let fewer = projection(items, collection, source, rest);
    let all = projection(items, collection, source, links);
    if rest.len() > 0 {
        lemma_a_projection_names_each_item_once(
            items,
            collection,
            source,
            rest,
            if k < rest.len() {
                k
            } else {
                0
            },
        );
    }
    if k < rest.len() {
        assert(rest[k] == links[k]);
        if let Some(placement) = item_projection(items[links[k]], collection, source, links[k]) {
            let i = fewer.index_of(placement);
            assert(all[i] == placement);
        }
    } else if let Some(placement) = item_projection(
        items[links[k]],
        collection,
        source,
        links[k],
    ) {
        assert(all[fewer.len() as int] == placement);
    }
    assert forall|i: int| 0 <= i < all.len() implies exists|j: int|
        0 <= j < links.len() && item_projection(
            items[links[j]],
            collection,
            source,
            #[trigger] links[j],
        ) == Some(#[trigger] all[i]) by {
        if i < fewer.len() {
            assert(all[i] == fewer[i]);
            let j = choose|j: int|
                0 <= j < rest.len() && item_projection(
                    items[rest[j]],
                    collection,
                    source,
                    #[trigger] rest[j],
                ) == Some(fewer[i]);
            assert(links[j] == rest[j]);
        } else {
            assert(links[links.len() - 1] == links.last());
        }
    }
}

/// Only a placement that is one half of something asks where the other
/// half lives, a create or a tombstone: any other is handed on as it is,
/// and one that asks changes in its origin alone.
pub proof fn lemma_only_a_half_asks_where_the_other_lives<
    F: FnMut(&PimdirPlacement) -> Option<PimdirOrigin>,
>(resolver: F, bare: PlacementView, made: PlacementView)
    requires
        origin_resolved(resolver, bare, made),
    ensures
        bare.status != PimdirStatus::Created && bare.status != PimdirStatus::Tombstone ==> made
            == bare,
        made == (PlacementView { origin: made.origin, ..bare }),
        bare.status == PimdirStatus::Created || bare.status == PimdirStatus::Tombstone ==> exists|
            asked: PimdirPlacement,
            origin: Option<PimdirOrigin>,
        |
            asked@ == bare && #[trigger] call_ensures(resolver, (&asked,), origin) && made.origin
                == origin.deep_view(),
{
}

} // verus!

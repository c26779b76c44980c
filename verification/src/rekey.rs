//! # Rekey coroutine
//!
//! Rebuilds a collection after a handle-space change (an IMAP UIDVALIDITY
//! bump), carrying local state over to the new handles by link id.
//!
//! A plain full sync would read every old handle as deleted upstream and
//! drop cached bodies and pending changes with them. The rebuild instead
//! enumerates the new spine, resolves its link ids at the meta tier in
//! bounded chunks, and carries each old placement onto the new handle of
//! the same item.
//!
//! The cache survives without a refetch, flag deltas re-derive against
//! the new base, tombstones keep their pending remove and staged edits
//! their body. An edit whose item found no new home survives as a pending
//! create; other unmatched pending state is dropped and counted.
//!
//! Pending creates are local staging, not spine, and stay untouched. A
//! member whose fetched revision differs from the one its base held
//! changed on the remote while the handles did: it is carried as the pull
//! a sync would make, or as a conflict when it also holds a local edit,
//! never with a base claiming a revision it never reconciled.
//!
//! Identity keys the match, so two copies of one identity stay two items:
//! a source reports the shared hint, never the minted key, so the first
//! copy in handle order takes the hint and the next is carried onto its
//! minted key. A row carried nowhere is dropped as the deletion it is.

use crate::change::{PimdirDropReason, PimdirWriteOp, WriteOpView};
use crate::collection::{PimdirCheckpoint, PimdirCollectionId};
use crate::coroutine::{
    misfit, misfit_of, ArgView, PimdirArg, PimdirArgError, PimdirCoroutine, PimdirCoroutineState,
    PimdirYield, YieldView,
};
use crate::list::push_to;
use crate::load::{LoadScopeView, PimdirLoadScope};
use crate::placement::{
    claimed_key, lemma_claim_among, lemma_lengths_bounded, merged, minted_key, names_none_past,
    BaseView, PimdirBase, PimdirFlags, PimdirHandle, PimdirLevel, PimdirLinkId, PimdirPlacement,
    PimdirSortKey, PimdirStatus, PlacementView,
};
use crate::remote::{
    FetchedItemView, PimdirFetchedItem, PimdirRemoteItem, PimdirTier, RemoteItemView,
};
use crate::summary::{PimdirSummary, SummaryView};
use crate::text::{same_option, text_before, text_lt, Text};
use crate::text_map::{in_order, TextMap, TextSet};
use vstd::prelude::*;
use vstd::string::*;

verus! {

/// What a rekey did.
#[derive(Clone, Copy, Debug, PartialEq, Eq, Structural)]
pub struct PimdirRekeyReport {
    /// Old placements carried over to their new handle.
    pub rekeyed: usize,
    /// New members with no old placement to carry, pulled fresh.
    pub pulled: usize,
    /// Old placements whose pending state matched nothing and was dropped.
    ///
    /// No link id was resolved before the change, or the item is gone from
    /// the new spine.
    pub dropped: usize,
}

impl Default for PimdirRekeyReport {
    fn default() -> (report: Self)
        ensures
            report == (PimdirRekeyReport { rekeyed: 0, pulled: 0, dropped: 0 }),
    {
        PimdirRekeyReport { rekeyed: 0, pulled: 0, dropped: 0 }
    }
}

/// What a meta fetch resolved for one new handle.
#[derive(Debug, PartialEq, Eq)]
pub struct Resolved {
    /// The identity resolved.
    pub link_id: PimdirLinkId,
    /// The summary resolved.
    pub summary: Option<PimdirSummary>,
    /// The sort key resolved.
    pub sort_key: PimdirSortKey,
    /// The revision observed.
    pub revision: Option<String>,
}

/// What a [`Resolved`] says, by value.
#[verifier::ext_equal]
pub struct ResolvedView {
    pub link_id: Text,
    pub summary: Option<SummaryView>,
    pub sort_key: Text,
    pub revision: Option<Text>,
}

impl View for Resolved {
    type V = ResolvedView;

    open spec fn view(&self) -> ResolvedView {
        ResolvedView {
            link_id: self.link_id@,
            summary: self.summary.deep_view(),
            sort_key: self.sort_key@,
            revision: self.revision.deep_view(),
        }
    }
}

impl DeepView for Resolved {
    type V = ResolvedView;

    open spec fn deep_view(&self) -> ResolvedView {
        self@
    }
}

impl Clone for Resolved {
    fn clone(&self) -> (copy: Self)
        ensures
            copy@ == self@,
    {
        Resolved {
            link_id: self.link_id.clone(),
            summary: self.summary.clone(),
            sort_key: self.sort_key.clone(),
            revision: self.revision.clone(),
        }
    }
}

/// The old placements a rebuild renumbers: all but pending creates, which
/// are local staging.
pub open spec fn spine_of(old: Seq<PlacementView>) -> Seq<PlacementView>
    decreases old.len(),
{
    if old.len() == 0 {
        Seq::empty()
    } else if old.last().status == PimdirStatus::Created {
        spine_of(old.drop_last())
    } else {
        spine_of(old.drop_last()).push(old.last())
    }
}

/// The identities pending creates hold.
pub open spec fn staged_links(old: Seq<PlacementView>) -> Set<Text>
    decreases old.len(),
{
    if old.len() == 0 {
        Set::empty()
    } else {
        match (old.last().status, old.last().link_id) {
            (PimdirStatus::Created, Some(link)) => staged_links(old.drop_last()).insert(link),
            _ => staged_links(old.drop_last()),
        }
    }
}

/// Placements by identity, the last under each.
pub open spec fn by_link_of(spine: Seq<PlacementView>) -> Map<Text, PlacementView>
    decreases spine.len(),
{
    if spine.len() == 0 {
        Map::empty()
    } else {
        match spine.last().link_id {
            Some(link) => by_link_of(spine.drop_last()).insert(link, spine.last()),
            None => by_link_of(spine.drop_last()),
        }
    }
}

/// New members by handle, the first under each.
pub open spec fn by_handle_of(items: Seq<RemoteItemView>) -> Map<Text, RemoteItemView>
    decreases items.len(),
{
    if items.len() == 0 {
        Map::empty()
    } else {
        let rest = by_handle_of(items.drop_last());
        if rest.dom().contains(items.last().handle) {
            rest
        } else {
            rest.insert(items.last().handle, items.last())
        }
    }
}

/// What is resolved once more fetched items came in.
pub open spec fn resolved_with(
    resolved: Map<Text, ResolvedView>,
    fetched: Seq<FetchedItemView>,
) -> Map<Text, ResolvedView>
    decreases fetched.len(),
{
    if fetched.len() == 0 {
        resolved
    } else {
        let item = fetched.last();
        resolved_with(resolved, fetched.drop_last()).insert(
            item.handle,
            ResolvedView {
                link_id: item.link_id,
                summary: item.summary,
                sort_key: item.sort_key,
                revision: item.revision,
            },
        )
    }
}

/// Whether an old copy carries the key minted for `hint` under its own
/// old handle.
pub open spec fn is_heir(by_link: Map<Text, PlacementView>, hint: Text, link: Text) -> bool {
    &&& by_link.dom().contains(link)
    &&& by_link[link].link_id == Some(minted_key(hint, by_link[link].handle))
}

/// Whether an heir is the one of the lowest handle.
pub open spec fn is_first_heir(by_link: Map<Text, PlacementView>, hint: Text, link: Text) -> bool {
    &&& is_heir(by_link, hint, link)
    &&& forall|other: Text| #[trigger]
        is_heir(by_link, hint, other) ==> !text_lt(by_link[other].handle, by_link[link].handle)
}

/// The key a rebuilt member takes, and the old placement is found under.
///
/// The hint while unclaimed, else the minted key an old copy already
/// carries, that of the lowest handle, else a mint of the member's own.
pub open spec fn rebuilt_key(
    hint: Text,
    handle: Text,
    claimed: Set<Text>,
    by_link: Map<Text, PlacementView>,
) -> Text {
    if !claimed.contains(hint) {
        hint
    } else if exists|link: Text| is_heir(by_link, hint, link) {
        by_link[choose|link: Text| is_first_heir(by_link, hint, link)].link_id->0
    } else {
        claimed_key(hint, handle, claimed.union(by_link.dom()))
    }
}

/// The revision a new member was observed at.
pub open spec fn observed_revision(
    item: RemoteItemView,
    resolved: Option<ResolvedView>,
) -> Option<Text> {
    match (item.revision, resolved) {
        (Some(revision), _) => Some(revision),
        (None, Some(resolved)) => resolved.revision,
        (None, None) => None,
    }
}

/// Whether the remote changed while the handles did: it reports a
/// revision the old base does not hold.
pub open spec fn remote_edited(
    old: PlacementView,
    item: RemoteItemView,
    resolved: Option<ResolvedView>,
) -> bool {
    let observed = observed_revision(item, resolved);
    observed is Some && observed != (match old.base {
        Some(base) => base.revision,
        None => None,
    })
}

/// Whether a placement holds a body its base does not.
pub open spec fn local_edit(old: PlacementView) -> bool {
    old.object is Some && !(old.base matches Some(base) && base.object == old.object)
}

/// The flags of a carried placement: the local change since the old base,
/// on top of what the remote now reports.
pub open spec fn carried_flags(old: PlacementView, item: RemoteItemView) -> Option<Set<Text>> {
    merged(
        match old.base {
            Some(base) => base.flags,
            None => Some(Set::empty()),
        },
        old.flags,
        item.flags,
    )
}

/// An old placement on its new handle, as an unchanged member.
pub open spec fn carried_plain(
    collection: Text,
    old: PlacementView,
    item: RemoteItemView,
    resolved: Option<ResolvedView>,
) -> PlacementView {
    PlacementView {
        collection,
        handle: item.handle,
        link_id: old.link_id,
        object: old.object,
        level: old.level,
        summary: match resolved {
            Some(ResolvedView { summary: Some(summary), .. }) => Some(summary),
            _ => old.summary,
        },
        sort_key: match resolved {
            Some(resolved) => resolved.sort_key,
            None => old.sort_key,
        },
        flags: carried_flags(old, item),
        status: if carried_flags(old, item) == item.flags {
            PimdirStatus::Clean
        } else {
            PimdirStatus::Dirty
        },
        conflict_revision: None,
        conflict_object: None,
        base: Some(
            BaseView {
                flags: item.flags,
                revision: match old.base {
                    Some(base) => base.revision,
                    None => None,
                },
                object: match old.base {
                    Some(base) => base.object,
                    None => None,
                },
            },
        ),
        origin: old.origin,
    }
}

/// A member as the pull a sync would make: the body dropped, the base at
/// the observed revision.
pub open spec fn pulled(
    placement: PlacementView,
    item: RemoteItemView,
    observed: Option<Text>,
) -> PlacementView {
    PlacementView {
        object: None,
        level: PimdirLevel::Probed,
        base: Some(BaseView { flags: item.flags, revision: observed, object: None }),
        ..placement
    }
}

/// An old placement carried onto its new handle.
///
/// The cache survives and the flag delta re-derives against the new base.
/// A remote edit makes a placement holding a local edit a conflict with
/// its base untouched, revives a tombstone, and is pulled otherwise.
pub open spec fn carried_onto(
    collection: Text,
    old: PlacementView,
    item: RemoteItemView,
    resolved: Option<ResolvedView>,
) -> PlacementView {
    let plain = carried_plain(collection, old, item, resolved);
    let observed = observed_revision(item, resolved);
    let changed = remote_edited(old, item, resolved);
    match old.status {
        PimdirStatus::Conflict => PlacementView {
            status: PimdirStatus::Conflict,
            conflict_revision: observed,
            conflict_object: if observed == old.conflict_revision {
                old.conflict_object
            } else {
                None
            },
            ..plain
        },
        PimdirStatus::Tombstone => if changed {
            PlacementView {
                flags: item.flags,
                status: PimdirStatus::Clean,
                origin: None,
                ..pulled(plain, item, observed)
            }
        } else {
            PlacementView { status: PimdirStatus::Tombstone, ..plain }
        },
        _ => if changed && local_edit(old) {
            PlacementView {
                status: PimdirStatus::Conflict,
                conflict_revision: observed,
                ..plain
            }
        } else if changed {
            pulled(plain, item, observed)
        } else if local_edit(old) && old.status == PimdirStatus::Dirty {
            PlacementView { status: PimdirStatus::Dirty, ..plain }
        } else {
            plain
        },
    }
}

/// A fresh placement for a new member with no old counterpart.
pub open spec fn fresh_placement(
    collection: Text,
    item: RemoteItemView,
    resolved: Option<ResolvedView>,
    key: Option<Text>,
) -> PlacementView {
    PlacementView {
        collection,
        handle: item.handle,
        link_id: key,
        object: None,
        level: if resolved is Some {
            PimdirLevel::Meta
        } else {
            PimdirLevel::Probed
        },
        summary: match resolved {
            Some(resolved) => resolved.summary,
            None => None,
        },
        sort_key: match resolved {
            Some(resolved) => resolved.sort_key,
            None => Text::empty(),
        },
        flags: item.flags,
        status: PimdirStatus::Clean,
        conflict_revision: None,
        conflict_object: None,
        base: Some(BaseView { flags: item.flags, revision: item.revision, object: None }),
        origin: None,
    }
}

/// How far a rebuild got: the old placements not carried yet, the keys
/// claimed, the handles written and the old handles carried, the writes
/// and their count.
#[verifier::ext_equal]
pub struct Walk {
    pub by_link: Map<Text, PlacementView>,
    pub claimed: Set<Text>,
    pub written: Set<Text>,
    pub carried: Set<Text>,
    pub writes: Seq<WriteOpView>,
    pub rekeyed: nat,
    pub pulled: nat,
}

/// A rebuild after one more new member: the old placement of the same item
/// is carried onto it, and a member with none is pulled fresh.
pub open spec fn walk_one(
    collection: Text,
    links: Map<Text, ResolvedView>,
    walk: Walk,
    item: RemoteItemView,
) -> Walk {
    let resolved = if links.dom().contains(item.handle) {
        Some(links[item.handle])
    } else {
        None
    };
    match resolved {
        None => Walk {
            written: walk.written.insert(item.handle),
            writes: walk.writes.push(
                WriteOpView::UpsertPlacement(fresh_placement(collection, item, None, None)),
            ),
            pulled: walk.pulled + 1,
            ..walk
        },
        Some(found) => {
            let key = rebuilt_key(found.link_id, item.handle, walk.claimed, walk.by_link);
            if walk.by_link.dom().contains(key) {
                let old = walk.by_link[key];
                Walk {
                    by_link: walk.by_link.remove(key),
                    claimed: walk.claimed.insert(key),
                    written: walk.written.insert(item.handle),
                    carried: walk.carried.insert(old.handle),
                    writes: walk.writes.push(
                        WriteOpView::UpsertPlacement(
                            carried_onto(collection, old, item, resolved),
                        ),
                    ),
                    rekeyed: walk.rekeyed + 1,
                    ..walk
                }
            } else {
                Walk {
                    claimed: walk.claimed.insert(key),
                    written: walk.written.insert(item.handle),
                    writes: walk.writes.push(
                        WriteOpView::UpsertPlacement(
                            fresh_placement(collection, item, resolved, Some(key)),
                        ),
                    ),
                    pulled: walk.pulled + 1,
                    ..walk
                }
            }
        },
    }
}

/// A rebuild after the new members under the given handles, in order.
pub open spec fn walk_members(
    collection: Text,
    links: Map<Text, ResolvedView>,
    walk: Walk,
    members: Map<Text, RemoteItemView>,
    handles: Seq<Text>,
) -> Walk
    decreases handles.len(),
{
    if handles.len() == 0 {
        walk
    } else {
        walk_one(
            collection,
            links,
            walk_members(collection, links, walk, members, handles.drop_last()),
            members[handles.last()],
        )
    }
}

/// Whether a placement holds a pending edit of a body.
pub open spec fn holds_edit(placement: PlacementView) -> bool {
    (placement.status == PimdirStatus::Dirty || placement.status == PimdirStatus::Conflict)
        && local_edit(placement)
}

/// An edit whose item found no new home: a pending create.
pub open spec fn resurrected(placement: PlacementView) -> PlacementView {
    PlacementView {
        status: PimdirStatus::Created,
        conflict_revision: None,
        conflict_object: None,
        base: None,
        origin: None,
        ..placement
    }
}

/// A rebuild after the edits of these old placements that were carried
/// nowhere survive as creates.
pub open spec fn walk_edits(walk: Walk, spine: Seq<PlacementView>) -> Walk
    decreases spine.len(),
{
    if spine.len() == 0 {
        walk
    } else {
        let before = walk_edits(walk, spine.drop_last());
        let placement = spine.last();
        if before.carried.contains(placement.handle) || !holds_edit(placement) {
            before
        } else {
            Walk {
                written: before.written.insert(placement.handle),
                carried: before.carried.insert(placement.handle),
                writes: before.writes.push(
                    WriteOpView::UpsertPlacement(resurrected(placement)),
                ),
                rekeyed: before.rekeyed + 1,
                ..before
            }
        }
    }
}

/// How many old placements lose a pending state that matched nothing.
pub open spec fn lost_count(spine: Seq<PlacementView>, carried: Set<Text>) -> nat
    decreases spine.len(),
{
    if spine.len() == 0 {
        0
    } else {
        let rest = lost_count(spine.drop_last(), carried);
        if spine.last().status != PimdirStatus::Clean && !carried.contains(spine.last().handle) {
            rest + 1
        } else {
            rest
        }
    }
}

/// The drops of the old spine: every old handle the rebuild does not write
/// again, renumbered where it was carried and deleted where it was not.
pub open spec fn spine_drops(
    collection: Text,
    spine: Seq<PlacementView>,
    written: Set<Text>,
    carried: Set<Text>,
) -> Seq<WriteOpView>
    decreases spine.len(),
{
    if spine.len() == 0 {
        Seq::empty()
    } else {
        let rest = spine_drops(collection, spine.drop_last(), written, carried);
        let handle = spine.last().handle;
        if written.contains(handle) {
            rest
        } else {
            rest.push(
                WriteOpView::DropPlacement {
                    collection,
                    handle,
                    reason: if carried.contains(handle) {
                        PimdirDropReason::Rekeyed
                    } else {
                        PimdirDropReason::Deleted
                    },
                },
            )
        }
    }
}

/// A rebuild before its first member: every old placement of the spine is
/// still to be carried, and the keys of pending creates stay taken.
pub open spec fn setting_out(old: Seq<PlacementView>) -> Walk {
    Walk {
        by_link: by_link_of(spine_of(old)),
        claimed: staged_links(old),
        written: Set::empty(),
        carried: Set::empty(),
        writes: Seq::empty(),
        rekeyed: 0,
        pulled: 0,
    }
}

/// The rebuild of a collection once every new member was walked and every
/// homeless edit kept.
pub open spec fn rebuilt(
    collection: Text,
    old: Seq<PlacementView>,
    items: Seq<RemoteItemView>,
    links: Map<Text, ResolvedView>,
) -> Walk {
    let spine = spine_of(old);
    let members = by_handle_of(items);
    let start = setting_out(old);
    walk_edits(
        walk_members(collection, links, start, members, in_order(members.dom())),
        spine,
    )
}

/// The write batch of a rebuild.
pub open spec fn rebuild_writes(
    collection: Text,
    old: Seq<PlacementView>,
    items: Seq<RemoteItemView>,
    links: Map<Text, ResolvedView>,
    checkpoint: Seq<u8>,
) -> Seq<WriteOpView> {
    let walk = rebuilt(collection, old, items, links);
    (walk.writes + spine_drops(collection, spine_of(old), walk.written, walk.carried)).push(
        WriteOpView::SetCheckpoint { collection, checkpoint },
    )
}

/// Whether a report counts what a rebuild did.
pub open spec fn counts_rebuild(
    report: PimdirRekeyReport,
    collection: Text,
    old: Seq<PlacementView>,
    items: Seq<RemoteItemView>,
    links: Map<Text, ResolvedView>,
) -> bool {
    let walk = rebuilt(collection, old, items, links);
    &&& report.rekeyed == walk.rekeyed
    &&& report.pulled == walk.pulled
    &&& report.dropped == lost_count(spine_of(old), walk.carried)
}

/// Every old placement found by its link carries that link.
proof fn lemma_by_link_keys(spine: Seq<PlacementView>)
    ensures
        forall|link: Text| #[trigger]
            by_link_of(spine).dom().contains(link) ==> by_link_of(spine)[link].link_id == Some(link),
    decreases spine.len(),
{
    if spine.len() > 0 {
        lemma_by_link_keys(spine.drop_last());
    }
}

/// Whether each placement stands under its own link.
pub open spec fn keyed_by_link(by_link: Map<Text, PlacementView>) -> bool {
    forall|link: Text| #[trigger]
        by_link.dom().contains(link) ==> by_link[link].link_id == Some(link)
}

/// The heir of the lowest handle is one key.
proof fn lemma_first_heir(by_link: Map<Text, PlacementView>, hint: Text, link: Text)
    requires
        keyed_by_link(by_link),
        is_first_heir(by_link, hint, link),
    ensures
        by_link[choose|link: Text| is_first_heir(by_link, hint, link)].link_id == Some(link),
{
    let chosen = choose|link: Text| is_first_heir(by_link, hint, link);
    assert(is_heir(by_link, hint, chosen));
    assert(is_heir(by_link, hint, link));
    crate::text::lemma_text_total(by_link[chosen].handle, by_link[link].handle);
}

/// A rebuild in progress.
struct Rebuild {
    by_link: TextMap<PimdirPlacement>,
    claimed: TextSet,
    written: TextSet,
    carried: TextSet,
    writes: Vec<PimdirWriteOp>,
    rekeyed: usize,
    pulled: usize,
}

impl View for Rebuild {
    type V = Walk;

    closed spec fn view(&self) -> Walk {
        Walk {
            by_link: self.by_link@,
            claimed: self.claimed@,
            written: self.written@,
            carried: self.carried@,
            writes: self.writes.deep_view(),
            rekeyed: self.rekeyed as nat,
            pulled: self.pulled as nat,
        }
    }
}

impl Rebuild {
    /// Every write so far was counted, and each old placement stands under
    /// its own link.
    spec fn wf(&self) -> bool {
        &&& self.rekeyed + self.pulled == self.writes@.len()
        &&& keyed_by_link(self.by_link@)
    }

    /// The old copy of the lowest handle that carries a key minted for
    /// `hint`.
    fn heir(&self, hint: &PimdirLinkId) -> (heir: Option<PimdirLinkId>)
        requires
            self.wf(),
        ensures
            match heir {
                Some(heir) => is_first_heir(self@.by_link, hint@, heir@),
                None => forall|link: Text| !is_heir(self@.by_link, hint@, link),
            },
    {
        let n: usize = self.by_link.len();
        let ghost keys = self.by_link.keys();
        let ghost map = self.by_link@;
        let mut best: Option<usize> = None;
        let mut i: usize = 0;
        while i < n
            invariant
                i <= n,
                n == keys.len(),
                keys == self.by_link.keys(),
                map == self.by_link@,
                self.wf(),
                match best {
                    Some(b) => {
                        &&& b < i
                        &&& is_heir(map, hint@, keys[b as int])
                        &&& forall|j: int|
                            0 <= j < i && is_heir(map, hint@, #[trigger] keys[j]) ==> !text_lt(
                                map[keys[j]].handle,
                                map[keys[b as int]].handle,
                            )
                    },
                    None => forall|j: int| 0 <= j < i ==> !is_heir(map, hint@, #[trigger] keys[j]),
                },
            decreases n - i,
        {
            let old = self.by_link.value_at(i);
            let carries = match &old.link_id {
                Some(link) => *link == hint.minted(&old.handle),
                None => false,
            };
            assert(carries == is_heir(map, hint@, keys[i as int]));
            if carries {
                match best {
                    None => {
                        proof {
                            crate::text::lemma_text_irreflexive(old@.handle);
                        }
                        best = Some(i);
                    },
                    Some(b) => {
                        let held = self.by_link.value_at(b);
                        proof {
                            crate::text::lemma_text_irreflexive(old@.handle);
                            if text_lt(old@.handle, held@.handle) {
                                assert forall|j: int|
                                    0 <= j < i + 1 && is_heir(map, hint@, #[trigger] keys[j]) implies !text_lt(
                                    map[keys[j]].handle,
                                    old@.handle,
                                ) by {
                                    if j < i && text_lt(map[keys[j]].handle, old@.handle) {
                                        crate::text::lemma_text_transitive(
                                            map[keys[j]].handle,
                                            old@.handle,
                                            held@.handle,
                                        );
                                    }
                                }
                            }
                        }
                        if text_before(old.handle.as_str(), held.handle.as_str()) {
                            best = Some(i);
                        }
                    },
                }
            }
            i = i + 1;
        }
        proof {
            assert forall|link: Text| map.dom().contains(link) implies keys.contains(link) by {
                assert(keys.to_set().contains(link));
            }
        }
        match best {
            Some(b) => {
                let key = PimdirLinkId(self.by_link.key_at(b).clone());
                proof {
                    assert forall|other: Text| #[trigger]
                        is_heir(map, hint@, other) implies !text_lt(
                        map[other].handle,
                        map[key@].handle,
                    ) by {
                        let j = keys.index_of(other);
                        assert(keys[j] == other);
                    }
                }
                Some(key)
            },
            None => {
                proof {
                    assert forall|link: Text| !is_heir(map, hint@, link) by {
                        if map.dom().contains(link) {
                            let j = keys.index_of(link);
                            assert(keys[j] == link);
                        }
                    }
                }
                None
            },
        }
    }

    /// The key a rebuilt member takes, and the old placement is found
    /// under.
    ///
    /// The hint while unclaimed, else the minted key an old copy already
    /// carries (the handle it was minted from is what the change took
    /// away), else a mint of the member's own, for a copy with no old row
    /// to carry.
    fn key_of(&self, hint: &PimdirLinkId, handle: &PimdirHandle) -> (key: PimdirLinkId)
        requires
            self.wf(),
        ensures
            key@ == rebuilt_key(hint@, handle@, self@.claimed, self@.by_link),
    {
        if !self.claimed.contains(hint.as_str()) {
            return hint.clone();
        }
        if let Some(heir) = self.heir(hint) {
            proof {
                assert(is_heir(self@.by_link, hint@, heir@));
                lemma_first_heir(self@.by_link, hint@, heir@);
            }
            return heir;
        }
        let ghost taken = self.claimed@.union(self.by_link@.dom());
        let reports = |key: &PimdirLinkId| -> (held: bool)
            ensures
                held == (self.claimed@.contains(key@) || self.by_link@.dom().contains(key@)),
            { self.claimed.contains(key.as_str()) || self.by_link.contains_key(key.as_str()) };
        // Counting a set or a map tells that its listing holds its keys.
        let n: usize = self.claimed.len();
        let m: usize = self.by_link.len();
        proof {
            let keys = self.claimed.list() + self.by_link.keys();
            let bound = lemma_lengths_bounded(keys);
            assert(names_none_past(reports, bound)) by {
                assert forall|key: PimdirLinkId| #[trigger]
                    call_ensures(reports, (&key,), true) implies key@.len() <= bound by {
                    if self.claimed@.contains(key@) {
                        assert(self.claimed.list().to_set().contains(key@));
                        let i = self.claimed.list().index_of(key@);
                        assert(keys[i] == key@);
                    } else {
                        assert(self.by_link.keys().to_set().contains(key@));
                        let i = self.by_link.keys().index_of(key@);
                        assert(keys[n + i] == key@);
                    }
                }
            }
        }
        let key = hint.claim(handle, reports);
        proof {
            lemma_claim_among(reports, hint@, handle@, taken, key);
        }
        key
    }

    /// Takes in one new member: carried from the old placement of the same
    /// item, or pulled fresh.
    fn member(
        &mut self,
        collection: &PimdirCollectionId,
        links: &TextMap<Resolved>,
        item: &PimdirRemoteItem,
    )
        requires
            old(self).wf(),
        ensures
            final(self).wf(),
            final(self)@ == walk_one(collection@, links@, old(self)@, item@),
    {
        let ghost before = self@;
        self.written.insert(item.handle.0.clone());
        let resolved = links.get(item.handle.as_str());
        match resolved {
            None => {
                let placement = fresh(collection, item, None, None);
                push_to(&mut self.writes, PimdirWriteOp::UpsertPlacement(placement));
                assert(self.writes.len() <= usize::MAX);
                self.pulled = self.pulled + 1;
                assert(self@ =~= walk_one(collection@, links@, before, item@));
            },
            Some(found) => {
                let key = self.key_of(&found.link_id, &item.handle);
                self.claimed.insert(key.0.clone());
                match self.by_link.remove(key.as_str()) {
                    Some(old) => {
                        self.carried.insert(old.handle.0.clone());
                        let placement = carry(collection, &old, item, Some(found));
                        push_to(&mut self.writes, PimdirWriteOp::UpsertPlacement(placement));
                        assert(self.writes.len() <= usize::MAX);
                        self.rekeyed = self.rekeyed + 1;
                        assert(self@ =~= walk_one(collection@, links@, before, item@));
                    },
                    None => {
                        assert(self.by_link@ =~= before.by_link);
                        let placement = fresh(collection, item, Some(found), Some(key));
                        push_to(&mut self.writes, PimdirWriteOp::UpsertPlacement(placement));
                        assert(self.writes.len() <= usize::MAX);
                        self.pulled = self.pulled + 1;
                        assert(self@ =~= walk_one(collection@, links@, before, item@));
                    },
                }
            },
        }
    }

    /// Keeps the edits of old placements that were carried nowhere, as
    /// pending creates.
    fn keep_edits(&mut self, spine: &Vec<PimdirPlacement>)
        requires
            old(self).wf(),
        ensures
            final(self).wf(),
            final(self)@ == walk_edits(old(self)@, spine.deep_view()),
    {
        let ghost start = self@;
        let ghost all = spine.deep_view();
        let mut i: usize = 0;
        while i < spine.len()
            invariant
                i <= spine.len(),
                all == spine.deep_view(),
                self.wf(),
                self@ == walk_edits(start, all.take(i as int)),
            decreases spine.len() - i,
        {
            proof {
                assert(all.take(i + 1).drop_last() =~= all.take(i as int));
                assert(all.take(i + 1).last() == spine@[i as int]@);
            }
            let placement = &spine[i];
            let pending = match placement.status {
                PimdirStatus::Dirty => true,
                PimdirStatus::Conflict => true,
                _ => false,
            };
            let edit = pending && edits_body(placement);
            if !self.carried.contains(placement.handle.as_str()) && edit {
                let mut kept = placement.clone();
                kept.status = PimdirStatus::Created;
                kept.conflict_revision = None;
                kept.conflict_object = None;
                kept.base = None;
                kept.origin = None;
                self.written.insert(placement.handle.0.clone());
                self.carried.insert(placement.handle.0.clone());
                push_to(&mut self.writes, PimdirWriteOp::UpsertPlacement(kept));
                assert(self.writes.len() <= usize::MAX);
                self.rekeyed = self.rekeyed + 1;
                assert(self@ =~= walk_edits(start, all.take(i + 1)));
            }
            i = i + 1;
        }
        assert(all.take(i as int) =~= all);
    }
}

/// Whether a placement holds a body its base does not.
fn edits_body(placement: &PimdirPlacement) -> (edits: bool)
    ensures
        edits == local_edit(placement@),
{
    if placement.object.is_none() {
        return false;
    }
    match &placement.base {
        Some(base) => base.object != placement.object,
        None => true,
    }
}

/// Carries an old placement onto the new handle.
///
/// The cache survives and the flag delta re-derives against the new base.
/// A revision the old base does not hold is a remote edit: a placement
/// holding a local edit is carried conflicted at it with its base
/// untouched, a tombstone is revived as a sync would, and anything else is
/// carried as the pull a sync would make, body dropped and base at the
/// fetched revision.
fn carry(
    collection: &PimdirCollectionId,
    old: &PimdirPlacement,
    item: &PimdirRemoteItem,
    resolved: Option<&Resolved>,
) -> (carried: PimdirPlacement)
    ensures
        carried@ == carried_onto(collection@, old@, item@, resolved.deep_view()),
{
    let base_flags = match &old.base {
        Some(base) => base.flags.clone(),
        None => PimdirFlags::default(),
    };
    let flags = PimdirFlags::merge(&base_flags, &old.flags, &item.flags);
    let observed: Option<String> = match &item.revision {
        Some(revision) => Some(revision.clone()),
        None => match resolved {
            Some(resolved) => resolved.revision.clone(),
            None => None,
        },
    };
    let base_revision: Option<String> = match &old.base {
        Some(base) => base.revision.clone(),
        None => None,
    };
    let base_object = match &old.base {
        Some(base) => base.object.clone(),
        None => None,
    };
    let remote_edit = observed.is_some() && !same_option(&observed, &base_revision);
    let own_edit = edits_body(old);
    let summary = match resolved {
        Some(resolved) => match &resolved.summary {
            Some(summary) => Some(summary.clone()),
            None => old.summary.clone(),
        },
        None => old.summary.clone(),
    };
    let sort_key = match resolved {
        Some(resolved) => resolved.sort_key.clone(),
        None => old.sort_key.clone(),
    };
    let flags_pending = !flags.same(&item.flags);
    let mut carried = PimdirPlacement {
        collection: collection.clone(),
        handle: item.handle.clone(),
        link_id: old.link_id.clone(),
        object: old.object.clone(),
        level: old.level,
        summary,
        sort_key,
        flags,
        status: if flags_pending {
            PimdirStatus::Dirty
        } else {
            PimdirStatus::Clean
        },
        conflict_revision: None,
        conflict_object: None,
        base: Some(
            PimdirBase { flags: item.flags.clone(), revision: base_revision, object: base_object },
        ),
        origin: old.origin.clone(),
    };
    assert(carried@ == carried_plain(collection@, old@, item@, resolved.deep_view()));
    match old.status {
        PimdirStatus::Conflict => {
            carried.status = PimdirStatus::Conflict;
            // The diverging body describes the revision recorded beside
            // it, so a newer one drops it and the upgrade pass asks anew.
            if same_option(&observed, &old.conflict_revision) {
                carried.conflict_object = old.conflict_object.clone();
            }
            carried.conflict_revision = observed;
        },
        PimdirStatus::Tombstone => {
            // A delta never relists the member, so the revive a sync would
            // make on the next listing is made here.
            if remote_edit {
                carried.object = None;
                carried.level = PimdirLevel::Probed;
                carried.flags = item.flags.clone();
                carried.status = PimdirStatus::Clean;
                carried.origin = None;
                carried.base = Some(
                    PimdirBase { flags: item.flags.clone(), revision: observed, object: None },
                );
            } else {
                carried.status = PimdirStatus::Tombstone;
            }
        },
        _ => {
            if remote_edit && own_edit {
                carried.status = PimdirStatus::Conflict;
                carried.conflict_revision = observed;
            } else if remote_edit {
                carried.object = None;
                carried.level = PimdirLevel::Probed;
                carried.base = Some(
                    PimdirBase { flags: item.flags.clone(), revision: observed, object: None },
                );
            } else if own_edit && old.status == PimdirStatus::Dirty {
                carried.status = PimdirStatus::Dirty;
            }
        },
    }
    carried
}

/// A fresh placement for a new member with no old counterpart.
///
/// Carries the summary the meta fetch resolved, under the key settled for
/// it.
fn fresh(
    collection: &PimdirCollectionId,
    item: &PimdirRemoteItem,
    resolved: Option<&Resolved>,
    key: Option<PimdirLinkId>,
) -> (placement: PimdirPlacement)
    ensures
        placement@ == fresh_placement(collection@, item@, resolved.deep_view(), key.deep_view()),
{
    PimdirPlacement {
        collection: collection.clone(),
        handle: item.handle.clone(),
        link_id: key,
        object: None,
        level: if resolved.is_some() {
            PimdirLevel::Meta
        } else {
            PimdirLevel::Probed
        },
        summary: match resolved {
            Some(resolved) => resolved.summary.clone(),
            None => None,
        },
        sort_key: match resolved {
            Some(resolved) => resolved.sort_key.clone(),
            None => PimdirSortKey::default(),
        },
        flags: item.flags.clone(),
        status: PimdirStatus::Clean,
        conflict_revision: None,
        conflict_object: None,
        base: Some(
            PimdirBase {
                flags: item.flags.clone(),
                revision: item.revision.clone(),
                object: None,
            },
        ),
        origin: None,
    }
}

/// The old placements a rebuild renumbers, apart from pending creates and
/// the identities those hold.
fn partition(old: &Vec<PimdirPlacement>) -> (parts: (Vec<PimdirPlacement>, TextSet))
    ensures
        parts.0.deep_view() == spine_of(old.deep_view()),
        parts.1@ == staged_links(old.deep_view()),
{
    let ghost all = old.deep_view();
    let mut spine: Vec<PimdirPlacement> = Vec::new();
    let mut staged = TextSet::new();
    let mut i: usize = 0;
    assert(all.take(0).len() == 0);
    assert(spine.deep_view() =~= spine_of(all.take(0)));
    while i < old.len()
        invariant
            i <= old.len(),
            all == old.deep_view(),
            spine.deep_view() == spine_of(all.take(i as int)),
            staged@ == staged_links(all.take(i as int)),
        decreases old.len() - i,
    {
        proof {
            assert(all.take(i + 1).drop_last() =~= all.take(i as int));
            assert(all.take(i + 1).last() == old@[i as int]@);
        }
        if old[i].status == PimdirStatus::Created {
            match &old[i].link_id {
                Some(link) => {
                    staged.insert(link.0.clone());
                },
                None => {},
            }
        } else {
            push_to(&mut spine, old[i].clone());
        }
        i = i + 1;
    }
    assert(all.take(i as int) =~= all);
    (spine, staged)
}

/// Placements by identity, the last under each.
fn index_by_link(spine: &Vec<PimdirPlacement>) -> (by_link: TextMap<PimdirPlacement>)
    ensures
        by_link@ == by_link_of(spine.deep_view()),
{
    let ghost all = spine.deep_view();
    let mut by_link: TextMap<PimdirPlacement> = TextMap::new();
    let mut i: usize = 0;
    assert(all.take(0).len() == 0);
    while i < spine.len()
        invariant
            i <= spine.len(),
            all == spine.deep_view(),
            by_link@ == by_link_of(all.take(i as int)),
        decreases spine.len() - i,
    {
        proof {
            assert(all.take(i + 1).drop_last() =~= all.take(i as int));
            assert(all.take(i + 1).last() == spine@[i as int]@);
        }
        match &spine[i].link_id {
            Some(link) => {
                by_link.insert(link.0.clone(), spine[i].clone());
            },
            None => {},
        }
        i = i + 1;
    }
    assert(all.take(i as int) =~= all);
    by_link
}

/// New members by handle, the first under each.
fn index_by_handle(items: &Vec<PimdirRemoteItem>) -> (members: TextMap<PimdirRemoteItem>)
    ensures
        members@ == by_handle_of(items.deep_view()),
{
    let ghost all = items.deep_view();
    let mut members: TextMap<PimdirRemoteItem> = TextMap::new();
    let mut i: usize = 0;
    assert(all.take(0).len() == 0);
    while i < items.len()
        invariant
            i <= items.len(),
            all == items.deep_view(),
            members@ == by_handle_of(all.take(i as int)),
        decreases items.len() - i,
    {
        proof {
            assert(all.take(i + 1).drop_last() =~= all.take(i as int));
            assert(all.take(i + 1).last() == items@[i as int]@);
        }
        if !members.contains_key(items[i].handle.as_str()) {
            members.insert(items[i].handle.0.clone(), items[i].clone());
        }
        i = i + 1;
    }
    assert(all.take(i as int) =~= all);
    members
}

/// Drops the old spine the rebuild does not write again, counting what it
/// loses.
fn drop_spine(
    collection: &PimdirCollectionId,
    spine: &Vec<PimdirPlacement>,
    written: &TextSet,
    carried: &TextSet,
) -> (made: (Vec<PimdirWriteOp>, usize))
    ensures
        made.0.deep_view() == spine_drops(collection@, spine.deep_view(), written@, carried@),
        made.1 == lost_count(spine.deep_view(), carried@),
{
    let ghost all = spine.deep_view();
    let mut drops: Vec<PimdirWriteOp> = Vec::new();
    let mut lost: usize = 0;
    let mut i: usize = 0;
    assert(all.take(0).len() == 0);
    assert(drops.deep_view() =~= spine_drops(collection@, all.take(0), written@, carried@));
    while i < spine.len()
        invariant
            i <= spine.len(),
            all == spine.deep_view(),
            drops.deep_view() == spine_drops(collection@, all.take(i as int), written@, carried@),
            lost == lost_count(all.take(i as int), carried@),
            lost <= i,
        decreases spine.len() - i,
    {
        proof {
            assert(all.take(i + 1).drop_last() =~= all.take(i as int));
            assert(all.take(i + 1).last() == spine@[i as int]@);
        }
        let placement = &spine[i];
        let moved = carried.contains(placement.handle.as_str());
        if placement.status != PimdirStatus::Clean && !moved {
            lost = lost + 1;
        }
        // Never a handle this batch also upserts, or the storage's apply
        // order would decide. A renumbering is not a mass delete.
        if !written.contains(placement.handle.as_str()) {
            push_to(
                &mut drops,
                PimdirWriteOp::DropPlacement {
                    collection: collection.clone(),
                    handle: placement.handle.clone(),
                    reason: if moved {
                        PimdirDropReason::Rekeyed
                    } else {
                        PimdirDropReason::Deleted
                    },
                },
            );
        }
        i = i + 1;
    }
    assert(all.take(i as int) =~= all);
    (drops, lost)
}

/// Builds the write batch, carrying old placements over by link id.
///
/// Drops the old spine and upserts one placement per new member, carried
/// when an old placement resolves to the same item and fresh otherwise.
/// The members are walked in handle order, since which copy of a hint
/// keeps the bare key decides what every other copy takes; the keys of the
/// pending creates stay taken, since the rebuild leaves those rows where
/// they are.
fn rebuild(
    collection: &PimdirCollectionId,
    old: &Vec<PimdirPlacement>,
    items: &Vec<PimdirRemoteItem>,
    links: &TextMap<Resolved>,
    checkpoint: PimdirCheckpoint,
) -> (made: (Vec<PimdirWriteOp>, PimdirRekeyReport))
    ensures
        made.0.deep_view() == rebuild_writes(
            collection@,
            old.deep_view(),
            items.deep_view(),
            links@,
            checkpoint@,
        ),
        counts_rebuild(made.1, collection@, old.deep_view(), items.deep_view(), links@),
{
    let (spine, claimed) = partition(old);
    let by_link = index_by_link(&spine);
    proof {
        lemma_by_link_keys(spine.deep_view());
    }
    let members = index_by_handle(items);
    let mut walk = Rebuild {
        by_link,
        claimed,
        written: TextSet::new(),
        carried: TextSet::new(),
        writes: Vec::new(),
        rekeyed: 0,
        pulled: 0,
    };
    let ghost start = walk@;
    assert(start.writes =~= Seq::<WriteOpView>::empty());
    let n: usize = members.len();
    let ghost handles = members.keys();
    assert(handles.take(0).len() == 0);
    let mut i: usize = 0;
    while i < n
        invariant
            i <= n,
            n == handles.len(),
            handles == members.keys(),
            walk.wf(),
            walk@ == walk_members(collection@, links@, start, members@, handles.take(i as int)),
        decreases n - i,
    {
        proof {
            assert(handles.take(i + 1).drop_last() =~= handles.take(i as int));
            assert(handles.take(i + 1).last() == handles[i as int]);
        }
        walk.member(collection, links, members.value_at(i));
        i = i + 1;
    }
    assert(handles.take(i as int) =~= handles);
    walk.keep_edits(&spine);
    let (drops, lost) = drop_spine(collection, &spine, &walk.written, &walk.carried);
    let report = PimdirRekeyReport { rekeyed: walk.rekeyed, pulled: walk.pulled, dropped: lost };
    let mut writes = walk.writes;
    crate::list::extend_with(&mut writes, drops);
    push_to(
        &mut writes,
        PimdirWriteOp::SetCheckpoint { collection: collection.clone(), checkpoint },
    );
    (writes, report)
}

/// The new spine, as far as it is resolved.
struct Spine {
    old: Vec<PimdirPlacement>,
    items: Vec<PimdirRemoteItem>,
    checkpoint: PimdirCheckpoint,
    /// The new handles no meta fetch has resolved yet.
    unresolved: Vec<PimdirHandle>,
    /// What the meta fetches resolved, by new handle.
    resolved: TextMap<Resolved>,
}

/// What a rebuild knows of the new spine.
#[verifier::ext_equal]
pub struct SpineView {
    pub old: Seq<PlacementView>,
    pub items: Seq<RemoteItemView>,
    pub checkpoint: Seq<u8>,
    pub unresolved: Seq<Text>,
    pub resolved: Map<Text, ResolvedView>,
}

impl View for Spine {
    type V = SpineView;

    closed spec fn view(&self) -> SpineView {
        SpineView {
            old: self.old.deep_view(),
            items: self.items.deep_view(),
            checkpoint: self.checkpoint@,
            unresolved: self.unresolved.deep_view(),
            resolved: self.resolved@,
        }
    }
}

/// What the coroutine is doing while it waits for the caller.
enum State {
    Start,
    Loading,
    Enumerating(Vec<PimdirPlacement>),
    Fetching(Spine),
    Writing(PimdirRekeyReport),
    Done,
}

/// What a rekey is waiting for.
#[verifier::ext_equal]
pub enum RekeyPhase {
    /// Nothing asked for yet.
    Start,
    /// The load of the old spine.
    Loading,
    /// The enumeration of the new spine, with the old one loaded.
    Enumerating(Seq<PlacementView>),
    /// The identities of a chunk of the new spine.
    Fetching(SpineView),
    /// The write of the rebuild, with the report to hand back.
    Writing(PimdirRekeyReport),
    /// Finished.
    Done,
}

/// I/O-free REKEY coroutine.
pub struct PimdirRekey {
    collection: PimdirCollectionId,
    state: State,
}

/// What a rekey rebuilds, and what it waits for.
#[verifier::ext_equal]
pub struct RekeyView {
    pub collection: Text,
    pub phase: RekeyPhase,
}

impl View for PimdirRekey {
    type V = RekeyView;

    closed spec fn view(&self) -> RekeyView {
        RekeyView {
            collection: self.collection@,
            phase: match self.state {
                State::Start => RekeyPhase::Start,
                State::Loading => RekeyPhase::Loading,
                State::Enumerating(old) => RekeyPhase::Enumerating(old.deep_view()),
                State::Fetching(spine) => RekeyPhase::Fetching(spine@),
                State::Writing(report) => RekeyPhase::Writing(report),
                State::Done => RekeyPhase::Done,
            },
        }
    }
}

/// What one step of a rekey answers.
#[verifier::ext_equal]
pub enum RekeyStep {
    /// A request of the caller.
    Wants(YieldView),
    /// What the rekey did, or the caller's mistake.
    Ends(Result<PimdirRekeyReport, PimdirArgError>),
}

/// The handles one meta fetch names: the next ones, at most a chunk.
pub open spec fn next_chunk(unresolved: Seq<Text>) -> Seq<Text> {
    if unresolved.len() <= FETCH_CHUNK {
        unresolved
    } else {
        unresolved.take(FETCH_CHUNK as int)
    }
}

/// Whether a step goes on with a spine: the next chunk of identities is
/// asked for, and once none is left the whole rebuild is written, its
/// report kept for the end.
pub open spec fn goes_on(spine: SpineView, after: RekeyView, step: RekeyStep) -> bool {
    if spine.unresolved.len() == 0 {
        &&& after.phase matches RekeyPhase::Writing(report)
        &&& counts_rebuild(report, after.collection, spine.old, spine.items, spine.resolved)
        &&& step == RekeyStep::Wants(
            YieldView::WantsWrite(
                rebuild_writes(
                    after.collection,
                    spine.old,
                    spine.items,
                    spine.resolved,
                    spine.checkpoint,
                ),
            ),
        )
    } else {
        let chunk = next_chunk(spine.unresolved);
        &&& after.phase == RekeyPhase::Fetching(
            SpineView { unresolved: spine.unresolved.skip(chunk.len() as int), ..spine },
        )
        &&& step == RekeyStep::Wants(
            YieldView::WantsFetch {
                collection: after.collection,
                handles: chunk,
                tier: PimdirTier::Meta,
            },
        )
    }
}

/// The handles of new members, in the order listed.
pub open spec fn handles_of(items: Seq<RemoteItemView>) -> Seq<Text> {
    items.map_values(|item: RemoteItemView| item.handle)
}

/// Whether any old placement has an identity to match by.
pub open spec fn any_linked(old: Seq<PlacementView>) -> bool {
    exists|i: int| 0 <= i < old.len() && (#[trigger] old[i]).link_id is Some
}

/// Whether one step of a rekey answers its argument: the old spine is
/// loaded, the new one enumerated in full, its identities resolved where
/// there is one to match, the rebuild written, and what it did reported.
/// Anything else is the caller's mistake and moves nothing.
pub open spec fn rekey_steps(
    before: RekeyView,
    arg: Option<ArgView>,
    after: RekeyView,
    step: RekeyStep,
) -> bool {
    &&& after.collection == before.collection
    &&& match (before.phase, arg) {
        (RekeyPhase::Start, None) => after.phase == RekeyPhase::Loading && step == RekeyStep::Wants(
            YieldView::WantsLoad { collection: before.collection, scope: LoadScopeView::All },
        ),
        (RekeyPhase::Loading, Some(ArgView::Load(loaded))) => after.phase
            == RekeyPhase::Enumerating(loaded.placements) && step == RekeyStep::Wants(
            YieldView::WantsEnumerate { collection: before.collection, cursor: None },
        ),
        (RekeyPhase::Enumerating(old), Some(ArgView::Enumerate(snapshot))) => goes_on(
            SpineView {
                old,
                items: snapshot.items,
                checkpoint: snapshot.checkpoint,
                unresolved: if any_linked(old) {
                    handles_of(snapshot.items)
                } else {
                    Seq::empty()
                },
                resolved: Map::empty(),
            },
            after,
            step,
        ),
        (RekeyPhase::Fetching(spine), Some(ArgView::Fetch(fetched))) => goes_on(
            SpineView { resolved: resolved_with(spine.resolved, fetched), ..spine },
            after,
            step,
        ),
        (RekeyPhase::Writing(report), Some(ArgView::Write)) => after.phase == RekeyPhase::Done
            && step == RekeyStep::Ends(Ok(report)),
        _ => after.phase == before.phase && step == RekeyStep::Ends(
            Err(misfit(before.phase is Done, arg)),
        ),
    }
}

/// What a step answered.
pub open spec fn rekey_answer(
    state: PimdirCoroutineState<PimdirYield, Result<PimdirRekeyReport, PimdirArgError>>,
) -> RekeyStep {
    match state {
        PimdirCoroutineState::Yielded(wants) => RekeyStep::Wants(wants@),
        PimdirCoroutineState::Complete(done) => RekeyStep::Ends(done),
    }
}

/// How many handles one meta fetch of the new spine names.
///
/// A handle-space change touches every member, so the fetch resolving
/// their identities goes in bounded requests rather than one naming the
/// whole mailbox; the rebuild itself still lands in one batch.
pub const FETCH_CHUNK: usize = 256;

impl Spine {
    /// Takes in what a meta fetch resolved.
    fn resolve(&mut self, fetched: &Vec<PimdirFetchedItem>)
        ensures
            final(self)@ == (SpineView {
                resolved: resolved_with(old(self)@.resolved, fetched.deep_view()),
                ..old(self)@
            }),
    {
        let ghost before = self@;
        let ghost all = fetched.deep_view();
        let mut i: usize = 0;
        assert(all.take(0).len() == 0);
        while i < fetched.len()
            invariant
                i <= fetched.len(),
                all == fetched.deep_view(),
                self@ == (SpineView {
                    resolved: resolved_with(before.resolved, all.take(i as int)),
                    ..before
                }),
            decreases fetched.len() - i,
        {
            proof {
                assert(all.take(i + 1).drop_last() =~= all.take(i as int));
                assert(all.take(i + 1).last() == fetched@[i as int]@);
            }
            let item = &fetched[i];
            self.resolved.insert(
                item.handle.0.clone(),
                Resolved {
                    link_id: item.link_id.clone(),
                    summary: item.summary.clone(),
                    sort_key: item.sort_key.clone(),
                    revision: item.revision.clone(),
                },
            );
            i = i + 1;
        }
        assert(all.take(i as int) =~= all);
    }
}

impl PimdirRekey {
    /// Creates a coroutine rebuilding `collection` onto its new handles.
    pub fn new(collection: PimdirCollectionId) -> (rekey: Self)
        ensures
            rekey@ == (RekeyView { collection: collection@, phase: RekeyPhase::Start }),
    {
        PimdirRekey { collection, state: State::Start }
    }

    /// Yields the next meta fetch chunk, or the rebuild once all resolved.
    fn step(&mut self, spine: Spine) -> (state: PimdirCoroutineState<
        PimdirYield,
        Result<PimdirRekeyReport, PimdirArgError>,
    >)
        ensures
            final(self)@.collection == old(self)@.collection,
            goes_on(spine@, final(self)@, rekey_answer(state)),
    {
        let mut spine = spine;
        let ghost before = spine@;
        if spine.unresolved.len() == 0 {
            let (writes, report) = rebuild(
                &self.collection,
                &spine.old,
                &spine.items,
                &spine.resolved,
                spine.checkpoint,
            );
            self.state = State::Writing(report);
            return PimdirCoroutineState::Yielded(PimdirYield::WantsWrite(writes));
        }
        let size: usize = if spine.unresolved.len() <= FETCH_CHUNK {
            spine.unresolved.len()
        } else {
            FETCH_CHUNK
        };
        let rest = spine.unresolved.split_off(size);
        let mut handles: Vec<PimdirHandle> = rest;
        std::mem::swap(&mut handles, &mut spine.unresolved);
        proof {
            assert(handles.deep_view() =~= next_chunk(before.unresolved));
            assert(spine.unresolved.deep_view() =~= before.unresolved.skip(size as int));
        }
        self.state = State::Fetching(spine);
        PimdirCoroutineState::Yielded(
            PimdirYield::WantsFetch {
                collection: self.collection.clone(),
                handles,
                tier: PimdirTier::Meta,
            },
        )
    }
}

/// The handles of new members, in the order listed.
fn list_handles(items: &Vec<PimdirRemoteItem>) -> (handles: Vec<PimdirHandle>)
    ensures
        handles.deep_view() == handles_of(items.deep_view()),
{
    let mut handles: Vec<PimdirHandle> = Vec::new();
    let mut i: usize = 0;
    while i < items.len()
        invariant
            i <= items.len(),
            handles.len() == i,
            forall|j: int| 0 <= j < i ==> (#[trigger] handles@[j])@ == items@[j]@.handle,
        decreases items.len() - i,
    {
        handles.push(items[i].handle.clone());
        i = i + 1;
    }
    assert(handles.deep_view() =~= handles_of(items.deep_view()));
    handles
}

/// Whether any old placement has an identity to match by.
fn has_link(old: &Vec<PimdirPlacement>) -> (linked: bool)
    ensures
        linked == any_linked(old.deep_view()),
{
    let mut i: usize = 0;
    while i < old.len()
        invariant
            i <= old.len(),
            forall|j: int| 0 <= j < i ==> (#[trigger] old@[j])@.link_id is None,
        decreases old.len() - i,
    {
        if old[i].link_id.is_some() {
            assert(old.deep_view()[i as int].link_id is Some);
            return true;
        }
        i = i + 1;
    }
    assert forall|j: int| 0 <= j < old.deep_view().len() implies (
    #[trigger] old.deep_view()[j]).link_id is None by {
        assert(old@[j]@.link_id is None);
    }
    false
}

impl PimdirCoroutine for PimdirRekey {
    type Yield = PimdirYield;

    type Return = Result<PimdirRekeyReport, PimdirArgError>;

    fn resume(&mut self, arg: Option<PimdirArg>) -> (state: PimdirCoroutineState<
        PimdirYield,
        Result<PimdirRekeyReport, PimdirArgError>,
    >)
        ensures
            rekey_steps(old(self)@, arg.deep_view(), final(self)@, rekey_answer(state)),
    {
        let mut state = State::Done;
        std::mem::swap(&mut state, &mut self.state);
        match (state, arg) {
            (State::Start, None) => {
                self.state = State::Loading;
                PimdirCoroutineState::Yielded(
                    PimdirYield::WantsLoad {
                        collection: self.collection.clone(),
                        scope: PimdirLoadScope::All,
                    },
                )
            },
            (State::Loading, Some(PimdirArg::Load(loaded))) => {
                self.state = State::Enumerating(loaded.placements);
                PimdirCoroutineState::Yielded(
                    PimdirYield::WantsEnumerate {
                        collection: self.collection.clone(),
                        cursor: None,
                    },
                )
            },
            (State::Enumerating(old), Some(PimdirArg::Enumerate(snapshot))) => {
                let unresolved = if has_link(&old) {
                    list_handles(&snapshot.items)
                } else {
                    let none: Vec<PimdirHandle> = Vec::new();
                    assert(none.deep_view() =~= Seq::<Text>::empty());
                    none
                };
                self.step(
                    Spine {
                        old,
                        items: snapshot.items,
                        checkpoint: snapshot.checkpoint,
                        unresolved,
                        resolved: TextMap::new(),
                    },
                )
            },
            (State::Fetching(spine), Some(PimdirArg::Fetch(fetched))) => {
                let mut spine = spine;
                spine.resolve(&fetched);
                self.step(spine)
            },
            (State::Writing(report), Some(PimdirArg::Write)) => {
                self.state = State::Done;
                PimdirCoroutineState::Complete(Ok(report))
            },
            (state, arg) => {
                let done = match &state {
                    State::Done => true,
                    _ => false,
                };
                self.state = state;
                PimdirCoroutineState::Complete(Err(misfit_of(done, &arg)))
            },
        }
    }
}

/// Whether a walk holds upserts alone, each of a handle it wrote, all of
/// them counted.
pub open spec fn walk_sound(walk: Walk) -> bool {
    &&& walk.rekeyed + walk.pulled == walk.writes.len()
    &&& forall|i: int|
        0 <= i < walk.writes.len() ==> ((#[trigger] walk.writes[i]) matches
            WriteOpView::UpsertPlacement(placement) && walk.written.contains(placement.handle))
}

proof fn lemma_walk_members_sound(
    collection: Text,
    links: Map<Text, ResolvedView>,
    walk: Walk,
    members: Map<Text, RemoteItemView>,
    handles: Seq<Text>,
)
    requires
        walk_sound(walk),
        forall|i: int| 0 <= i < handles.len() ==> members[#[trigger] handles[i]].handle == handles[i],
    ensures
        walk_sound(walk_members(collection, links, walk, members, handles)),
        walk.written.subset_of(
            walk_members(collection, links, walk, members, handles).written,
        ),
        forall|i: int|
            0 <= i < handles.len() ==> walk_members(
                collection,
                links,
                walk,
                members,
                handles,
            ).written.contains(#[trigger] handles[i]),
    decreases handles.len(),
{
    if handles.len() > 0 {
        let rest = handles.drop_last();
        assert forall|i: int| 0 <= i < rest.len() implies members[#[trigger] rest[i]].handle
            == rest[i] by {
            assert(rest[i] == handles[i]);
        }
        lemma_walk_members_sound(collection, links, walk, members, rest);
        let before = walk_members(collection, links, walk, members, rest);
        let after = walk_members(collection, links, walk, members, handles);
        assert(members[handles[handles.len() - 1]].handle == handles.last());
        assert forall|i: int| 0 <= i < after.writes.len() implies ((#[trigger] after.writes[i]) matches
            WriteOpView::UpsertPlacement(placement) && after.written.contains(placement.handle)) by {
            if i < before.writes.len() {
                assert(after.writes[i] == before.writes[i]);
            }
        }
        assert forall|i: int| 0 <= i < handles.len() implies after.written.contains(
            #[trigger] handles[i],
        ) by {
            if i < rest.len() {
                assert(rest[i] == handles[i]);
            }
        }
    }
}

proof fn lemma_walk_edits_sound(walk: Walk, spine: Seq<PlacementView>)
    requires
        walk_sound(walk),
    ensures
        walk_sound(walk_edits(walk, spine)),
        walk.written.subset_of(walk_edits(walk, spine).written),
    decreases spine.len(),
{
    if spine.len() > 0 {
        lemma_walk_edits_sound(walk, spine.drop_last());
        let before = walk_edits(walk, spine.drop_last());
        let after = walk_edits(walk, spine);
        assert forall|i: int| 0 <= i < after.writes.len() implies ((#[trigger] after.writes[i]) matches
            WriteOpView::UpsertPlacement(placement) && after.written.contains(placement.handle)) by {
            if i < before.writes.len() {
                assert(after.writes[i] == before.writes[i]);
            }
        }
    }
}

proof fn lemma_by_handle(items: Seq<RemoteItemView>)
    ensures
        forall|handle: Text| #[trigger]
            by_handle_of(items).dom().contains(handle) ==> by_handle_of(items)[handle].handle
                == handle,
        forall|i: int|
            0 <= i < items.len() ==> by_handle_of(items).dom().contains(
                (#[trigger] items[i]).handle,
            ),
        by_handle_of(items).dom().finite(),
    decreases items.len(),
{
    if items.len() > 0 {
        lemma_by_handle(items.drop_last());
        assert forall|i: int| 0 <= i < items.len() implies by_handle_of(items).dom().contains(
            (#[trigger] items[i]).handle,
        ) by {
            if i < items.len() - 1 {
                assert(items.drop_last()[i] == items[i]);
            }
        }
    }
}

/// A rebuild upserts every member of the new spine, counts each upsert it
/// makes once, and upserts nothing but the handles it says it wrote.
pub proof fn lemma_rebuild_writes_every_member(
    collection: Text,
    old: Seq<PlacementView>,
    items: Seq<RemoteItemView>,
    links: Map<Text, ResolvedView>,
)
    ensures
        walk_sound(rebuilt(collection, old, items, links)),
        forall|i: int|
            0 <= i < items.len() ==> rebuilt(collection, old, items, links).written.contains(
                (#[trigger] items[i]).handle,
            ),
{
    let spine = spine_of(old);
    let members = by_handle_of(items);
    let start = setting_out(old);
    lemma_by_handle(items);
    crate::text_map::lemma_order_of_finite(members.dom());
    let handles = in_order(members.dom());
    assert forall|i: int| 0 <= i < handles.len() implies members[#[trigger] handles[i]].handle
        == handles[i] by {
        assert(handles.to_set().contains(handles[i]));
    }
    lemma_walk_members_sound(collection, links, start, members, handles);
    let walked = walk_members(collection, links, start, members, handles);
    lemma_walk_edits_sound(walked, spine);
    assert forall|i: int| 0 <= i < items.len() implies rebuilt(
        collection,
        old,
        items,
        links,
    ).written.contains((#[trigger] items[i]).handle) by {
        assert(members.dom().contains(items[i].handle));
        assert(handles.to_set().contains(items[i].handle));
        let k = handles.index_of(items[i].handle);
        assert(handles[k] == items[i].handle);
    }
}

proof fn lemma_spine_drops(
    collection: Text,
    spine: Seq<PlacementView>,
    written: Set<Text>,
    carried: Set<Text>,
)
    ensures
        forall|i: int|
            0 <= i < spine_drops(collection, spine, written, carried).len() ==> ((
            #[trigger] spine_drops(collection, spine, written, carried)[i]) matches
                WriteOpView::DropPlacement { collection: of, handle, reason } && of == collection
                && !written.contains(handle) && (reason == PimdirDropReason::Rekeyed
                <==> carried.contains(handle)) && (reason == PimdirDropReason::Deleted
                <==> !carried.contains(handle)) && exists|j: int|
                0 <= j < spine.len() && (#[trigger] spine[j]).handle == handle),
    decreases spine.len(),
{
    if spine.len() > 0 {
        let rest = spine.drop_last();
        lemma_spine_drops(collection, rest, written, carried);
        let before = spine_drops(collection, rest, written, carried);
        let after = spine_drops(collection, spine, written, carried);
        assert forall|i: int| 0 <= i < after.len() implies ((#[trigger] after[i]) matches
            WriteOpView::DropPlacement { collection: of, handle, reason } && of == collection
            && !written.contains(handle) && (reason == PimdirDropReason::Rekeyed
            <==> carried.contains(handle)) && (reason == PimdirDropReason::Deleted
            <==> !carried.contains(handle)) && exists|j: int|
            0 <= j < spine.len() && (#[trigger] spine[j]).handle == handle) by {
            if i < before.len() {
                assert(after[i] == before[i]);
                if let WriteOpView::DropPlacement { collection: of, handle, reason } = before[i] {
                    let j = choose|j: int|
                        0 <= j < rest.len() && (#[trigger] rest[j]).handle == handle;
                    assert(spine[j] == rest[j]);
                }
            } else {
                assert(spine[spine.len() - 1].handle == spine.last().handle);
            }
        }
    }
}

/// A rebuild never drops a handle it also upserts, so the order a storage
/// applies a batch in never decides; it drops old rows alone, as a
/// renumbering where they were carried and a deletion where they were not,
/// and ends on the checkpoint.
pub proof fn lemma_rebuild_never_drops_what_it_writes(
    collection: Text,
    old: Seq<PlacementView>,
    items: Seq<RemoteItemView>,
    links: Map<Text, ResolvedView>,
    checkpoint: Seq<u8>,
)
    ensures
        ({
            let writes = rebuild_writes(collection, old, items, links, checkpoint);
            let walk = rebuilt(collection, old, items, links);
            &&& writes.len() > 0
            &&& writes.last() == WriteOpView::SetCheckpoint { collection, checkpoint }
            &&& forall|i: int|
                0 <= i < writes.len() - 1 ==> match #[trigger] writes[i] {
                    WriteOpView::UpsertPlacement(placement) => walk.written.contains(
                        placement.handle,
                    ),
                    WriteOpView::DropPlacement { collection: of, handle, reason } => {
                        &&& of == collection
                        &&& !walk.written.contains(handle)
                        &&& reason == (if walk.carried.contains(handle) {
                            PimdirDropReason::Rekeyed
                        } else {
                            PimdirDropReason::Deleted
                        })
                        &&& exists|j: int|
                            0 <= j < spine_of(old).len() && (#[trigger] spine_of(old)[j]).handle
                                == handle
                    },
                    _ => false,
                }
        }),
{
    let walk = rebuilt(collection, old, items, links);
    let drops = spine_drops(collection, spine_of(old), walk.written, walk.carried);
    let writes = rebuild_writes(collection, old, items, links, checkpoint);
    lemma_rebuild_writes_every_member(collection, old, items, links);
    lemma_spine_drops(collection, spine_of(old), walk.written, walk.carried);
    assert forall|i: int| 0 <= i < writes.len() - 1 implies match #[trigger] writes[i] {
        WriteOpView::UpsertPlacement(placement) => walk.written.contains(placement.handle),
        WriteOpView::DropPlacement { collection: of, handle, reason } => {
            &&& of == collection
            &&& !walk.written.contains(handle)
            &&& reason == (if walk.carried.contains(handle) {
                PimdirDropReason::Rekeyed
            } else {
                PimdirDropReason::Deleted
            })
            &&& exists|j: int|
                0 <= j < spine_of(old).len() && (#[trigger] spine_of(old)[j]).handle == handle
        },
        _ => false,
    } by {
        if i < walk.writes.len() {
            assert(writes[i] == walk.writes[i]);
        } else {
            assert(writes[i] == drops[i - walk.writes.len()]);
        }
    }
}

/// Pending creates are local staging: the spine a rebuild renumbers holds
/// none of them, so it drops none.
pub proof fn lemma_pending_creates_stay_untouched(old: Seq<PlacementView>)
    ensures
        forall|j: int|
            0 <= j < spine_of(old).len() ==> (#[trigger] spine_of(old)[j]).status
                != PimdirStatus::Created,
    decreases old.len(),
{
    if old.len() > 0 {
        lemma_pending_creates_stay_untouched(old.drop_last());
    }
}

/// A carried placement keeps what it held: it takes the new handle under
/// its own identity, a local edit keeps its body unless a delete was
/// pending, and an unchanged tombstone keeps its pending remove.
pub proof fn lemma_carry_keeps_local_state(
    collection: Text,
    old: PlacementView,
    item: RemoteItemView,
    resolved: Option<ResolvedView>,
)
    ensures
        ({
            let new = carried_onto(collection, old, item, resolved);
            &&& new.handle == item.handle
            &&& new.link_id == old.link_id
            &&& (local_edit(old) && old.status != PimdirStatus::Tombstone ==> new.object
                == old.object)
            &&& (!remote_edited(old, item, resolved) ==> new.object == old.object && new.level
                == old.level)
            &&& (old.status == PimdirStatus::Tombstone && !remote_edited(old, item, resolved)
                ==> new.status == PimdirStatus::Tombstone)
            &&& (old.status == PimdirStatus::Conflict ==> new.status == PimdirStatus::Conflict)
            &&& (remote_edited(old, item, resolved) && local_edit(old) && old.status
                != PimdirStatus::Tombstone ==> new.status == PimdirStatus::Conflict)
        }),
{
}

/// A base never claims a revision that was not reconciled: it moves to the
/// observed one only where the body goes, for the next read to fetch.
pub proof fn lemma_carry_never_claims_an_unread_revision(
    collection: Text,
    old: PlacementView,
    item: RemoteItemView,
    resolved: Option<ResolvedView>,
)
    ensures
        ({
            let new = carried_onto(collection, old, item, resolved);
            &&& new.base matches Some(base)
            &&& base.flags == item.flags
            &&& (base.revision == (match old.base {
                Some(held) => held.revision,
                None => None,
            }) && base.object == (match old.base {
                Some(held) => held.object,
                None => None,
            })) || (base.revision == observed_revision(item, resolved) && base.object is None
                && new.object is None)
        }),
{
}

/// A finished rekey takes no further step, and a mistaken resume moves
/// nothing.
pub proof fn lemma_mistaken_rekey_resume_moves_nothing(
    before: RekeyView,
    arg: Option<ArgView>,
    after: RekeyView,
    error: PimdirArgError,
)
    requires
        rekey_steps(before, arg, after, RekeyStep::Ends(Err(error))),
    ensures
        after == before,
        before.phase is Done ==> error == PimdirArgError::UnexpectedArg,
{
}

/// Whether no two placements share an identity.
pub open spec fn one_key_once(old: Seq<PlacementView>) -> bool {
    forall|i: int, j: int|
        0 <= i < j < old.len() && (#[trigger] old[i]).link_id is Some && (
        #[trigger] old[j]).link_id is Some ==> old[i].link_id != old[j].link_id
}

/// The identity an upsert writes, where it names one.
pub open spec fn key_written(op: WriteOpView) -> Option<Text> {
    match op {
        WriteOpView::UpsertPlacement(placement) => placement.link_id,
        _ => None,
    }
}

/// Whether no two writes name one identity.
pub open spec fn keys_written_once(writes: Seq<WriteOpView>) -> bool {
    forall|i: int, j: int|
        0 <= i < j < writes.len() && key_written(#[trigger] writes[i]) is Some && key_written(
            #[trigger] writes[j],
        ) is Some ==> key_written(writes[i]) != key_written(writes[j])
}

proof fn lemma_first_heir_exists(
    by_link: Map<Text, PlacementView>,
    hint: Text,
    heirs: Set<Text>,
) -> (first: Text)
    requires
        heirs.finite(),
        heirs.len() > 0,
    ensures
        heirs.contains(first),
        forall|other: Text| #[trigger]
            heirs.contains(other) ==> !text_lt(by_link[other].handle, by_link[first].handle),
    decreases heirs.len(),
{
    let one = heirs.choose();
    let rest = heirs.remove(one);
    crate::text::lemma_text_irreflexive(by_link[one].handle);
    if rest.len() == 0 {
        assert forall|other: Text| #[trigger] heirs.contains(other) implies !text_lt(
            by_link[other].handle,
            by_link[one].handle,
        ) by {
            if other != one {
                assert(rest.contains(other));
            }
        }
        one
    } else {
        let best = lemma_first_heir_exists(by_link, hint, rest);
        let first = if text_lt(by_link[one].handle, by_link[best].handle) {
            one
        } else {
            best
        };
        assert forall|other: Text| #[trigger] heirs.contains(other) implies !text_lt(
            by_link[other].handle,
            by_link[first].handle,
        ) by {
            if other != one {
                assert(rest.contains(other));
                if first == one && text_lt(by_link[other].handle, by_link[one].handle) {
                    crate::text::lemma_text_transitive(
                        by_link[other].handle,
                        by_link[one].handle,
                        by_link[best].handle,
                    );
                }
            }
        }
        first
    }
}

/// A rebuilt member takes a key nothing claimed before it.
proof fn lemma_rebuilt_key_is_free(
    hint: Text,
    handle: Text,
    claimed: Set<Text>,
    by_link: Map<Text, PlacementView>,
)
    requires
        claimed.finite(),
        by_link.dom().finite(),
        keyed_by_link(by_link),
        claimed.disjoint(by_link.dom()),
    ensures
        !claimed.contains(rebuilt_key(hint, handle, claimed, by_link)),
{
    if claimed.contains(hint) {
        if exists|link: Text| is_heir(by_link, hint, link) {
            let heirs = by_link.dom().filter(|link: Text| is_heir(by_link, hint, link));
            let some = choose|link: Text| is_heir(by_link, hint, link);
            by_link.dom().lemma_len_filter(|link: Text| is_heir(by_link, hint, link));
            assert(heirs.contains(some));
            if heirs.len() == 0 {
                assert(heirs =~= Set::empty());
            }
            let first = lemma_first_heir_exists(by_link, hint, heirs);
            assert forall|other: Text| #[trigger] is_heir(by_link, hint, other) implies !text_lt(
                by_link[other].handle,
                by_link[first].handle,
            ) by {
                assert(heirs.contains(other));
            }
            assert(is_first_heir(by_link, hint, first));
            lemma_first_heir(by_link, hint, first);
            assert(by_link.dom().contains(first));
        } else {
            let taken = claimed.union(by_link.dom());
            let list = in_order(taken);
            crate::text_map::lemma_order_of_finite(taken);
            let bound = lemma_lengths_bounded(list);
            assert forall|key: Text| #[trigger] taken.contains(key) implies key.len() <= bound by {
                assert(list.to_set().contains(key));
                let i = list.index_of(key);
                assert(list[i].len() <= bound);
            }
            crate::placement::lemma_claim_exists(hint, handle, taken, bound);
        }
    }
}

/// Whether a walk gave every key once: none is claimed and still to be
/// carried, what it wrote it claimed, and an old placement still to be
/// found either waits under its key or was carried.
spec fn walk_keyed(walk: Walk, staged: Set<Text>, start: Map<Text, PlacementView>) -> bool {
    &&& walk.claimed.finite()
    &&& walk.by_link.dom().finite()
    &&& keyed_by_link(walk.by_link)
    &&& walk.claimed.disjoint(walk.by_link.dom())
    &&& staged.subset_of(walk.claimed)
    &&& keys_written_once(walk.writes)
    &&& forall|i: int|
        0 <= i < walk.writes.len() ==> (key_written(#[trigger] walk.writes[i]) matches Some(key)
            ==> walk.claimed.contains(key) && !staged.contains(key))
    &&& forall|link: Text| #[trigger]
        start.dom().contains(link) ==> walk.by_link.dom().contains(link) || walk.carried.contains(
            start[link].handle,
        )
    &&& forall|link: Text| #[trigger]
        walk.by_link.dom().contains(link) ==> start.dom().contains(link) && walk.by_link[link]
            == start[link]
}

proof fn lemma_walk_one_keyed(
    collection: Text,
    links: Map<Text, ResolvedView>,
    walk: Walk,
    item: RemoteItemView,
    staged: Set<Text>,
    start: Map<Text, PlacementView>,
)
    requires
        walk_keyed(walk, staged, start),
    ensures
        walk_keyed(walk_one(collection, links, walk, item), staged, start),
{
    let after = walk_one(collection, links, walk, item);
    assert(after.writes.drop_last() =~= walk.writes);
    if links.dom().contains(item.handle) {
        let found = links[item.handle];
        let key = rebuilt_key(found.link_id, item.handle, walk.claimed, walk.by_link);
        lemma_rebuilt_key_is_free(found.link_id, item.handle, walk.claimed, walk.by_link);
        assert(key_written(after.writes.last()) == Some(key));
        assert(staged.subset_of(after.claimed));
    } else {
        assert(key_written(after.writes.last()) is None);
    }
    assert forall|i: int| 0 <= i < after.writes.len() implies (key_written(
        #[trigger] after.writes[i],
    ) matches Some(key) ==> after.claimed.contains(key) && !staged.contains(key)) by {
        if i < walk.writes.len() {
            assert(after.writes[i] == walk.writes[i]);
        }
    }
    assert forall|i: int, j: int|
        0 <= i < j < after.writes.len() && key_written(#[trigger] after.writes[i]) is Some
            && key_written(#[trigger] after.writes[j]) is Some implies key_written(after.writes[i])
        != key_written(after.writes[j]) by {
        assert(after.writes[i] == walk.writes[i]);
        if j < walk.writes.len() {
            assert(after.writes[j] == walk.writes[j]);
        }
    }
}

proof fn lemma_walk_members_keyed(
    collection: Text,
    links: Map<Text, ResolvedView>,
    walk: Walk,
    members: Map<Text, RemoteItemView>,
    handles: Seq<Text>,
    staged: Set<Text>,
    start: Map<Text, PlacementView>,
)
    requires
        walk_keyed(walk, staged, start),
    ensures
        walk_keyed(walk_members(collection, links, walk, members, handles), staged, start),
    decreases handles.len(),
{
    if handles.len() > 0 {
        let rest = handles.drop_last();
        lemma_walk_members_keyed(collection, links, walk, members, rest, staged, start);
        lemma_walk_one_keyed(
            collection,
            links,
            walk_members(collection, links, walk, members, rest),
            members[handles.last()],
            staged,
            start,
        );
    }
}

proof fn lemma_staged(old: Seq<PlacementView>)
    ensures
        staged_links(old).finite(),
        forall|link: Text| #[trigger]
            staged_links(old).contains(link) ==> exists|i: int|
                0 <= i < old.len() && (#[trigger] old[i]).status == PimdirStatus::Created
                    && old[i].link_id == Some(link),
    decreases old.len(),
{
    if old.len() > 0 {
        let rest = old.drop_last();
        lemma_staged(rest);
        assert forall|link: Text| #[trigger] staged_links(old).contains(link) implies exists|i: int|
            0 <= i < old.len() && (#[trigger] old[i]).status == PimdirStatus::Created
                && old[i].link_id == Some(link) by {
            if staged_links(rest).contains(link) {
                let i = choose|i: int|
                    0 <= i < rest.len() && (#[trigger] rest[i]).status == PimdirStatus::Created
                        && rest[i].link_id == Some(link);
                assert(old[i] == rest[i]);
            } else {
                assert(old[old.len() - 1].link_id == Some(link));
            }
        }
    }
}

/// Where the placements of the spine stood among the old ones.
proof fn lemma_spine_keeps_order(old: Seq<PlacementView>) -> (at: Seq<int>)
    ensures
        at.len() == spine_of(old).len(),
        forall|k: int|
            0 <= k < at.len() ==> 0 <= #[trigger] at[k] < old.len() && old[at[k]] == spine_of(
                old,
            )[k],
        forall|k: int, m: int| 0 <= k < m < at.len() ==> #[trigger] at[k] < #[trigger] at[m],
    decreases old.len(),
{
    if old.len() == 0 {
        Seq::empty()
    } else {
        let rest = old.drop_last();
        let before = lemma_spine_keeps_order(rest);
        assert forall|k: int| 0 <= k < before.len() implies 0 <= #[trigger] before[k] < old.len()
            && old[before[k]] == spine_of(rest)[k] by {
            assert(rest[before[k]] == old[before[k]]);
        }
        if old.last().status == PimdirStatus::Created {
            before
        } else {
            let at = before.push(old.len() - 1);
            assert forall|k: int| 0 <= k < at.len() implies 0 <= #[trigger] at[k] < old.len()
                && old[at[k]] == spine_of(old)[k] by {
                if k < before.len() {
                    assert(at[k] == before[k]);
                }
            }
            assert forall|k: int, m: int| 0 <= k < m < at.len() implies #[trigger] at[k]
                < #[trigger] at[m] by {
                if m < before.len() {
                    assert(at[k] == before[k] && at[m] == before[m]);
                } else {
                    assert(at[k] == before[k]);
                }
            }
            at
        }
    }
}

proof fn lemma_by_link_finds(spine: Seq<PlacementView>)
    requires
        one_key_once(spine),
    ensures
        by_link_of(spine).dom().finite(),
        forall|link: Text| #[trigger]
            by_link_of(spine).dom().contains(link) ==> exists|i: int|
                0 <= i < spine.len() && #[trigger] spine[i] == by_link_of(spine)[link]
                    && spine[i].link_id == Some(link),
        forall|i: int|
            0 <= i < spine.len() ==> ((#[trigger] spine[i]).link_id matches Some(link)
                ==> by_link_of(spine).dom().contains(link) && by_link_of(spine)[link] == spine[i]),
    decreases spine.len(),
{
    if spine.len() > 0 {
        let rest = spine.drop_last();
        assert forall|i: int, j: int|
            0 <= i < j < rest.len() && (#[trigger] rest[i]).link_id is Some && (
            #[trigger] rest[j]).link_id is Some implies rest[i].link_id != rest[j].link_id by {
            assert(rest[i] == spine[i] && rest[j] == spine[j]);
        }
        lemma_by_link_finds(rest);
        assert forall|link: Text| #[trigger] by_link_of(spine).dom().contains(
            link,
        ) implies exists|i: int|
            0 <= i < spine.len() && #[trigger] spine[i] == by_link_of(spine)[link]
                && spine[i].link_id == Some(link) by {
            if spine.last().link_id == Some(link) {
                assert(spine[spine.len() - 1] == spine.last());
            } else {
                let i = choose|i: int|
                    0 <= i < rest.len() && #[trigger] rest[i] == by_link_of(rest)[link]
                        && rest[i].link_id == Some(link);
                assert(spine[i] == rest[i]);
            }
        }
        assert forall|i: int| 0 <= i < spine.len() implies ((#[trigger] spine[i]).link_id matches Some(
            link,
        ) ==> by_link_of(spine).dom().contains(link) && by_link_of(spine)[link] == spine[i]) by {
            if i < rest.len() {
                assert(spine[i] == rest[i]);
                assert(spine[i].link_id is Some && spine[spine.len() - 1].link_id is Some
                    ==> spine[i].link_id != spine[spine.len() - 1].link_id);
            }
        }
    }
}

/// Whether a key an edit kept is one still to be found, of a placement
/// among the first of the spine.
spec fn kept_key(
    walk: Walk,
    spine: Seq<PlacementView>,
    n: int,
    key: Text,
) -> bool {
    walk.by_link.dom().contains(key) && exists|k: int|
        0 <= k < n && (#[trigger] spine[k]).link_id == Some(key)
}

proof fn lemma_walk_edits_keyed(
    walk: Walk,
    spine: Seq<PlacementView>,
    n: int,
    staged: Set<Text>,
    start: Map<Text, PlacementView>,
)
    requires
        0 <= n <= spine.len(),
        walk_keyed(walk, staged, start),
        one_key_once(spine),
        forall|i: int|
            0 <= i < spine.len() ==> ((#[trigger] spine[i]).link_id matches Some(link)
                ==> start.dom().contains(link) && start[link] == spine[i]),
    ensures
        keys_written_once(walk_edits(walk, spine.take(n)).writes),
        walk.carried.subset_of(walk_edits(walk, spine.take(n)).carried),
        forall|i: int|
            0 <= i < walk_edits(walk, spine.take(n)).writes.len() ==> (key_written(
                #[trigger] walk_edits(walk, spine.take(n)).writes[i],
            ) matches Some(key) ==> !staged.contains(key) && (walk.claimed.contains(key)
                || kept_key(walk, spine, n, key))),
    decreases n,
{
    let first = spine.take(n);
    if n > 0 {
        let rest = spine.take(n - 1);
        let placement = spine[n - 1];
        assert(first.drop_last() =~= rest);
        assert(first.last() == placement);
        lemma_walk_edits_keyed(walk, spine, n - 1, staged, start);
        let before = walk_edits(walk, rest);
        let after = walk_edits(walk, first);
        assert forall|i: int| 0 <= i < before.writes.len() implies (key_written(
            #[trigger] before.writes[i],
        ) matches Some(key) ==> !staged.contains(key) && (walk.claimed.contains(key) || kept_key(
            walk,
            spine,
            n,
            key,
        ))) by {
        }
        if !(before.carried.contains(placement.handle) || !holds_edit(placement)) {
            let op = WriteOpView::UpsertPlacement(resurrected(placement));
            assert(after.writes =~= before.writes.push(op));
            if let Some(link) = placement.link_id {
                assert(start[link] == spine[n - 1]);
                assert(start.dom().contains(link));
                assert(!walk.carried.contains(placement.handle));
                assert(walk.by_link.dom().contains(link));
                assert(!walk.claimed.contains(link));
                assert(spine[n - 1].link_id == Some(link));
                assert(kept_key(walk, spine, n, link));
                assert forall|i: int| 0 <= i < before.writes.len() implies key_written(
                    #[trigger] before.writes[i],
                ) != Some(link) by {
                    if key_written(before.writes[i]) == Some(link) {
                        assert(kept_key(walk, spine, n - 1, link));
                        let k = choose|k: int|
                            0 <= k < n - 1 && (#[trigger] spine[k]).link_id == Some(link);
                        assert(spine[k].link_id != spine[n - 1].link_id);
                    }
                }
            }
            assert forall|i: int, j: int|
                0 <= i < j < after.writes.len() && key_written(#[trigger] after.writes[i]) is Some
                    && key_written(#[trigger] after.writes[j]) is Some implies key_written(
                after.writes[i],
            ) != key_written(after.writes[j]) by {
                assert(after.writes[i] == before.writes[i]);
                if j < before.writes.len() {
                    assert(after.writes[j] == before.writes[j]);
                }
            }
            assert forall|i: int| 0 <= i < after.writes.len() implies (key_written(
                #[trigger] after.writes[i],
            ) matches Some(key) ==> !staged.contains(key) && (walk.claimed.contains(key)
                || kept_key(walk, spine, n, key))) by {
                if i < before.writes.len() {
                    assert(after.writes[i] == before.writes[i]);
                }
            }
        }
    } else {
        assert(first =~= Seq::empty());
    }
}

/// Two copies of one identity stay two items: where the old placements held
/// a key once, no two placements a rebuild writes share one, and none takes
/// the key of a pending create.
pub proof fn lemma_two_copies_stay_two_items(
    collection: Text,
    old: Seq<PlacementView>,
    items: Seq<RemoteItemView>,
    links: Map<Text, ResolvedView>,
)
    requires
        one_key_once(old),
    ensures
        ({
            let writes = rebuilt(collection, old, items, links).writes;
            &&& keys_written_once(writes)
            &&& forall|i: int|
                0 <= i < writes.len() ==> (key_written(#[trigger] writes[i]) matches Some(key)
                    ==> !staged_links(old).contains(key))
        }),
{
    let spine = spine_of(old);
    let members = by_handle_of(items);
    let staged = staged_links(old);
    let by_link = by_link_of(spine);
    let start = setting_out(old);
    let at = lemma_spine_keeps_order(old);
    assert forall|i: int, j: int|
        0 <= i < j < spine.len() && (#[trigger] spine[i]).link_id is Some && (
        #[trigger] spine[j]).link_id is Some implies spine[i].link_id != spine[j].link_id by {
        assert(at[i] < at[j]);
        assert(old[at[i]] == spine[i] && old[at[j]] == spine[j]);
    }
    lemma_by_link_finds(spine);
    lemma_by_link_keys(spine);
    lemma_staged(old);
    lemma_pending_creates_stay_untouched(old);
    assert forall|link: Text| staged.contains(link) && by_link.dom().contains(link) implies false by {
        let i = choose|i: int|
            0 <= i < old.len() && (#[trigger] old[i]).status == PimdirStatus::Created
                && old[i].link_id == Some(link);
        let k = choose|k: int|
            0 <= k < spine.len() && #[trigger] spine[k] == by_link[link] && spine[k].link_id
                == Some(link);
        assert(old[at[k]] == spine[k]);
        assert(i != at[k]);
        if i < at[k] {
            assert(old[i].link_id != old[at[k]].link_id);
        } else {
            assert(old[at[k]].link_id != old[i].link_id);
        }
    }
    assert(staged.disjoint(by_link.dom()));
    assert(walk_keyed(start, staged, by_link));
    let handles = in_order(members.dom());
    lemma_walk_members_keyed(collection, links, start, members, handles, staged, by_link);
    let walked = walk_members(collection, links, start, members, handles);
    lemma_walk_edits_keyed(walked, spine, spine.len() as int, staged, by_link);
    assert(spine.take(spine.len() as int) =~= spine);
}

proof fn lemma_edits_kept(walk: Walk, spine: Seq<PlacementView>)
    ensures
        walk.carried.subset_of(walk_edits(walk, spine).carried),
        walk.writes.len() <= walk_edits(walk, spine).writes.len(),
        forall|i: int|
            0 <= i < walk.writes.len() ==> walk_edits(walk, spine).writes[i] == #[trigger] walk.writes[i],
        forall|k: int|
            0 <= k < spine.len() && holds_edit(#[trigger] spine[k]) ==> walk_edits(
                walk,
                spine,
            ).carried.contains(spine[k].handle),
        forall|handle: Text| #[trigger]
            walk_edits(walk, spine).carried.contains(handle) ==> walk.carried.contains(handle)
                || exists|k: int|
                0 <= k < spine.len() && (#[trigger] spine[k]).handle == handle && holds_edit(
                    spine[k],
                ) && walk_edits(walk, spine).writes.contains(
                    WriteOpView::UpsertPlacement(resurrected(spine[k])),
                ),
    decreases spine.len(),
{
    if spine.len() > 0 {
        let rest = spine.drop_last();
        lemma_edits_kept(walk, rest);
        let before = walk_edits(walk, rest);
        let after = walk_edits(walk, spine);
        assert forall|i: int| 0 <= i < before.writes.len() implies after.writes[i]
            == #[trigger] before.writes[i] by {
        }
        assert forall|k: int| 0 <= k < spine.len() && holds_edit(
            #[trigger] spine[k],
        ) implies after.carried.contains(spine[k].handle) by {
            if k < rest.len() {
                assert(rest[k] == spine[k]);
            }
        }
        assert forall|handle: Text| #[trigger] after.carried.contains(
            handle,
        ) implies walk.carried.contains(handle) || exists|k: int|
            0 <= k < spine.len() && (#[trigger] spine[k]).handle == handle && holds_edit(spine[k])
                && after.writes.contains(WriteOpView::UpsertPlacement(resurrected(spine[k]))) by {
            if before.carried.contains(handle) {
                if !walk.carried.contains(handle) {
                    let k = choose|k: int|
                        0 <= k < rest.len() && (#[trigger] rest[k]).handle == handle && holds_edit(
                            rest[k],
                        ) && before.writes.contains(
                            WriteOpView::UpsertPlacement(resurrected(rest[k])),
                        );
                    assert(spine[k] == rest[k]);
                    let i = before.writes.index_of(
                        WriteOpView::UpsertPlacement(resurrected(rest[k])),
                    );
                    assert(after.writes[i] == before.writes[i]);
                }
            } else {
                let last = spine[spine.len() - 1];
                assert(last == spine.last());
                assert(after.writes[before.writes.len() as int] == WriteOpView::UpsertPlacement(
                    resurrected(last),
                ));
            }
        }
    }
}

/// No pending edit is lost: an edited placement whose item found no new
/// home survives as a pending create under its old handle, so that what a
/// rebuild counts as dropped is pending state that edits no body.
pub proof fn lemma_a_homeless_edit_survives(
    collection: Text,
    old: Seq<PlacementView>,
    items: Seq<RemoteItemView>,
    links: Map<Text, ResolvedView>,
    k: int,
)
    requires
        forall|i: int, j: int|
            0 <= i < j < spine_of(old).len() ==> (#[trigger] spine_of(old)[i]).handle != (
            #[trigger] spine_of(old)[j]).handle,
        0 <= k < spine_of(old).len(),
    ensures
        ({
            let placement = spine_of(old)[k];
            let members = by_handle_of(items);
            let walk = rebuilt(collection, old, items, links);
            let carried = walk_members(
                collection,
                links,
                setting_out(old),
                members,
                in_order(members.dom()),
            ).carried;
            &&& holds_edit(placement) ==> carried.contains(placement.handle)
                || walk.writes.contains(WriteOpView::UpsertPlacement(resurrected(placement)))
            &&& !walk.carried.contains(placement.handle) ==> !holds_edit(placement)
        }),
{
    let spine = spine_of(old);
    let members = by_handle_of(items);
    let start = setting_out(old);
    let walked = walk_members(collection, links, start, members, in_order(members.dom()));
    lemma_edits_kept(walked, spine);
    let placement = spine[k];
    if holds_edit(placement) && !walked.carried.contains(placement.handle) {
        let walk = walk_edits(walked, spine);
        assert(walk.carried.contains(placement.handle));
        let j = choose|j: int|
            0 <= j < spine.len() && (#[trigger] spine[j]).handle == placement.handle && holds_edit(
                spine[j],
            ) && walk.writes.contains(WriteOpView::UpsertPlacement(resurrected(spine[j])));
        if j < k {
            assert(spine[j].handle != spine[k].handle);
        } else if k < j {
            assert(spine[k].handle != spine[j].handle);
        }
    }
}

/// Whether a member's revision is one the old base does not hold: the one
/// it lists, or where it lists none the one its fetch told.
pub open spec fn told_anew(
    old: PlacementView,
    item: RemoteItemView,
    resolved: Option<ResolvedView>,
    revision: Text,
) -> bool {
    &&& item.revision == Some(revision) || (item.revision is None && resolved is Some
        && resolved->0.revision == Some(revision))
    &&& old.base is None || old.base->0.revision != Some(revision)
}

/// Whether a member says nothing of its body that the old base does not.
pub open spec fn told_nothing_new(
    old: PlacementView,
    item: RemoteItemView,
    resolved: Option<ResolvedView>,
) -> bool {
    ||| item.revision is None && (resolved is None || resolved->0.revision is None)
    ||| item.revision is Some && old.base is Some && old.base->0.revision == item.revision
    ||| item.revision is None && resolved is Some && old.base is Some && old.base->0.revision
        == resolved->0.revision
}

/// A carried placement keeps the flags it changed: one added since the base
/// is there, one taken away is not, and one left alone is as the remote has
/// it. While they differ from the remote's, the placement is not clean.
///
/// A tombstone that a remote edit revives takes the remote's flags instead.
pub proof fn lemma_a_carry_keeps_the_flag_delta(
    collection: Text,
    old: PlacementView,
    item: RemoteItemView,
    resolved: Option<ResolvedView>,
    flag: Text,
)
    requires
        old.status == PimdirStatus::Tombstone ==> told_nothing_new(old, item, resolved),
    ensures
        ({
            let new = carried_onto(collection, old, item, resolved);
            let base = if old.base is Some && old.base->0.flags is Some {
                old.base->0.flags->0
            } else {
                Set::empty()
            };
            &&& old.flags is Some && item.flags is Some ==> {
                let (local, remote) = (old.flags->0, item.flags->0);
                &&& new.flags is Some
                &&& local.contains(flag) && !base.contains(flag) ==> new.flags->0.contains(flag)
                &&& !local.contains(flag) && base.contains(flag) ==> !new.flags->0.contains(flag)
                &&& local.contains(flag) == base.contains(flag) ==> new.flags->0.contains(flag)
                    == remote.contains(flag)
            }
            &&& old.flags is None ==> new.flags == item.flags
            &&& item.flags is None ==> new.flags == old.flags
            &&& new.flags != item.flags ==> new.status != PimdirStatus::Clean
            &&& new.base matches Some(base) && base.flags == item.flags
        }),
{
}

/// A tombstone whose item was edited remotely is revived as the remote has
/// it: its flags, no body to push, and nothing pending.
pub proof fn lemma_a_remote_edit_revives_a_tombstone(
    collection: Text,
    old: PlacementView,
    item: RemoteItemView,
    resolved: Option<ResolvedView>,
    revision: Text,
)
    requires
        old.status == PimdirStatus::Tombstone,
        told_anew(old, item, resolved, revision),
    ensures
        ({
            let new = carried_onto(collection, old, item, resolved);
            &&& new.status == PimdirStatus::Clean
            &&& new.flags == item.flags
            &&& new.object is None
            &&& new.level == PimdirLevel::Probed
            &&& new.origin is None
            &&& new.base matches Some(base) && base.revision == Some(revision)
                && base.object is None
        }),
{
}

/// A member edited remotely is pulled, or a conflict where it also holds a
/// body of its own: the pull drops the body and bases on the revision told,
/// the conflict keeps the body and the base it had and records the revision.
pub proof fn lemma_a_remote_edit_is_pulled_or_disputed(
    collection: Text,
    old: PlacementView,
    item: RemoteItemView,
    resolved: Option<ResolvedView>,
    revision: Text,
)
    requires
        old.status != PimdirStatus::Tombstone,
        old.status != PimdirStatus::Conflict,
        told_anew(old, item, resolved, revision),
    ensures
        ({
            let new = carried_onto(collection, old, item, resolved);
            let own = old.object is Some && (old.base is None || old.base->0.object != old.object);
            &&& own ==> {
                &&& new.status == PimdirStatus::Conflict
                &&& new.conflict_revision == Some(revision)
                &&& new.conflict_object is None
                &&& new.object == old.object
                &&& new.level == old.level
                &&& new.base->0.revision == (if old.base is Some {
                    old.base->0.revision
                } else {
                    None
                })
                &&& new.base->0.object == (if old.base is Some {
                    old.base->0.object
                } else {
                    None
                })
            }
            &&& !own ==> {
                &&& new.object is None
                &&& new.level == PimdirLevel::Probed
                &&& new.conflict_revision is None
                &&& new.base->0.revision == Some(revision)
                &&& new.base->0.object is None
                &&& new.status == (if new.flags == item.flags {
                    PimdirStatus::Clean
                } else {
                    PimdirStatus::Dirty
                })
            }
        }),
{
}

/// A member that only moved keeps everything but its handle: its body and
/// its level, a pending edit as pending, a pending remove as one, and a
/// base at the revision and the body it had.
pub proof fn lemma_a_renumbered_member_keeps_its_state(
    collection: Text,
    old: PlacementView,
    item: RemoteItemView,
    resolved: Option<ResolvedView>,
)
    requires
        told_nothing_new(old, item, resolved),
    ensures
        ({
            let new = carried_onto(collection, old, item, resolved);
            let own = old.object is Some && (old.base is None || old.base->0.object != old.object);
            &&& new.collection == collection
            &&& new.handle == item.handle
            &&& new.link_id == old.link_id
            &&& new.object == old.object
            &&& new.level == old.level
            &&& new.origin == old.origin
            &&& new.base->0.revision == (if old.base is Some {
                old.base->0.revision
            } else {
                None
            })
            &&& new.base->0.object == (if old.base is Some {
                old.base->0.object
            } else {
                None
            })
            &&& (old.status == PimdirStatus::Tombstone ==> new.status == PimdirStatus::Tombstone)
            &&& (old.status == PimdirStatus::Conflict ==> new.status == PimdirStatus::Conflict)
            &&& (old.status == PimdirStatus::Dirty && own ==> new.status == PimdirStatus::Dirty)
            &&& (old.status == PimdirStatus::Clean ==> new.status == (if new.flags == item.flags {
                PimdirStatus::Clean
            } else {
                PimdirStatus::Dirty
            }))
            &&& (old.status == PimdirStatus::Dirty && !own ==> new.status == (if new.flags
                == item.flags {
                PimdirStatus::Clean
            } else {
                PimdirStatus::Dirty
            }))
        }),
{
}

/// A conflict stays one at the revision the member now tells, and keeps the
/// diverging body only while that is the revision it was recorded for.
pub proof fn lemma_a_carried_conflict_follows_its_revision(
    collection: Text,
    old: PlacementView,
    item: RemoteItemView,
    resolved: Option<ResolvedView>,
)
    requires
        old.status == PimdirStatus::Conflict,
    ensures
        ({
            let new = carried_onto(collection, old, item, resolved);
            &&& new.status == PimdirStatus::Conflict
            &&& new.object == old.object
            &&& (item.revision is Some ==> new.conflict_revision == item.revision)
            &&& (item.revision is None && resolved is Some ==> new.conflict_revision
                == resolved->0.revision)
            &&& (item.revision is None && resolved is None ==> new.conflict_revision is None)
            &&& (new.conflict_revision == old.conflict_revision ==> new.conflict_object
                == old.conflict_object)
            &&& (new.conflict_revision != old.conflict_revision ==> new.conflict_object is None)
        }),
{
}

/// What a fetch resolved is what a carried member says: its summary where it
/// told one, and its sort key; where nothing was fetched, what it said.
pub proof fn lemma_a_carry_takes_what_was_resolved(
    collection: Text,
    old: PlacementView,
    item: RemoteItemView,
    found: ResolvedView,
)
    ensures
        ({
            let new = carried_onto(collection, old, item, Some(found));
            &&& (found.summary is Some ==> new.summary == found.summary)
            &&& (found.summary is None ==> new.summary == old.summary)
            &&& new.sort_key == found.sort_key
        }),
        ({
            let new = carried_onto(collection, old, item, None);
            &&& new.summary == old.summary
            &&& new.sort_key == old.sort_key
        }),
{
}

/// A member with no old row is what the remote says of it, in sync: its
/// flags and revision are its base, no body is held, and it reads as listed
/// where its identity was resolved and as probed where it was not.
pub proof fn lemma_a_fresh_member_is_in_sync(
    collection: Text,
    item: RemoteItemView,
    resolved: Option<ResolvedView>,
    key: Option<Text>,
)
    ensures
        ({
            let new = fresh_placement(collection, item, resolved, key);
            &&& new.collection == collection
            &&& new.handle == item.handle
            &&& new.link_id == key
            &&& new.status == PimdirStatus::Clean
            &&& new.flags == item.flags
            &&& new.object is None
            &&& new.origin is None
            &&& new.conflict_revision is None && new.conflict_object is None
            &&& new.base matches Some(base) && base.flags == item.flags && base.revision
                == item.revision && base.object is None
            &&& (resolved matches Some(found) ==> new.level == PimdirLevel::Meta && new.summary
                == found.summary && new.sort_key == found.sort_key)
            &&& (resolved is None ==> new.level == PimdirLevel::Probed && new.summary is None
                && new.sort_key.len() == 0)
        }),
{
}

/// Identity keys the match: the first member of an identity is written under
/// it, and onto it the old placement of that identity is carried, where one
/// waits; a member nothing was resolved for is keyed by nothing.
pub proof fn lemma_the_first_copy_takes_the_identity(
    collection: Text,
    links: Map<Text, ResolvedView>,
    walk: Walk,
    item: RemoteItemView,
)
    ensures
        ({
            let after = walk_one(collection, links, walk, item);
            let written = after.writes.last();
            &&& after.writes.len() == walk.writes.len() + 1
            &&& after.writes.drop_last() == walk.writes
            &&& after.written.contains(item.handle)
            &&& written matches WriteOpView::UpsertPlacement(placement) && {
                let hint = links[item.handle].link_id;
                &&& placement.handle == item.handle
                &&& placement.collection == collection
                &&& !links.dom().contains(item.handle) ==> placement.link_id is None
                    && after.claimed == walk.claimed && after.pulled == walk.pulled + 1
                &&& links.dom().contains(item.handle) && !walk.claimed.contains(hint)
                    && !walk.by_link.dom().contains(hint) ==> placement.link_id == Some(hint)
                    && after.claimed.contains(hint) && after.pulled == walk.pulled + 1
                    && after.carried == walk.carried
                &&& links.dom().contains(item.handle) && !walk.claimed.contains(hint)
                    && walk.by_link.dom().contains(hint) ==> {
                    let old = walk.by_link[hint];
                    &&& placement.link_id == old.link_id
                    &&& after.claimed.contains(hint)
                    &&& after.carried.contains(old.handle)
                    &&& !after.by_link.dom().contains(hint)
                    &&& after.rekeyed == walk.rekeyed + 1
                    &&& after.pulled == walk.pulled
                }
            }
        }),
{
    let after = walk_one(collection, links, walk, item);
    assert(after.writes.drop_last() =~= walk.writes);
}

/// A further copy of an identity is keyed apart from it: onto the minted key
/// of the old copy with the lowest handle, where an old copy carries one,
/// and that copy is carried; else under a key nothing holds.
pub proof fn lemma_a_further_copy_is_keyed_apart(
    collection: Text,
    links: Map<Text, ResolvedView>,
    walk: Walk,
    item: RemoteItemView,
)
    requires
        walk.claimed.finite(),
        walk.by_link.dom().finite(),
        keyed_by_link(walk.by_link),
        walk.claimed.disjoint(walk.by_link.dom()),
        links.dom().contains(item.handle),
        walk.claimed.contains(links[item.handle].link_id),
    ensures
        ({
            let hint = links[item.handle].link_id;
            let after = walk_one(collection, links, walk, item);
            after.writes.last() matches WriteOpView::UpsertPlacement(placement)
                && placement.link_id matches Some(key) && {
                &&& key != hint
                &&& !walk.claimed.contains(key)
                &&& after.claimed == walk.claimed.insert(key)
                &&& forall|old: Text|
                    #![trigger walk.by_link[old]]
                    walk.by_link.dom().contains(old) && old == minted_key(
                        hint,
                        walk.by_link[old].handle,
                    ) ==> {
                        &&& walk.by_link.dom().contains(key)
                        &&& after.carried.contains(walk.by_link[key].handle)
                        &&& !text_lt(walk.by_link[old].handle, walk.by_link[key].handle)
                    }
            }
        }),
{
    let hint = links[item.handle].link_id;
    let by_link = walk.by_link;
    let key = rebuilt_key(hint, item.handle, walk.claimed, by_link);
    lemma_rebuilt_key_is_free(hint, item.handle, walk.claimed, by_link);
    if exists|link: Text| is_heir(by_link, hint, link) {
        let heirs = by_link.dom().filter(|link: Text| is_heir(by_link, hint, link));
        let some = choose|link: Text| is_heir(by_link, hint, link);
        by_link.dom().lemma_len_filter(|link: Text| is_heir(by_link, hint, link));
        assert(heirs.contains(some));
        if heirs.len() == 0 {
            assert(heirs =~= Set::empty());
        }
        let first = lemma_first_heir_exists(by_link, hint, heirs);
        assert forall|other: Text| #[trigger] is_heir(by_link, hint, other) implies !text_lt(
            by_link[other].handle,
            by_link[first].handle,
        ) by {
            assert(heirs.contains(other));
        }
        assert(is_first_heir(by_link, hint, first));
        lemma_first_heir(by_link, hint, first);
        assert(key == first);
        assert(by_link.dom().contains(first));
        assert forall|old: Text|
            #![trigger by_link[old]]
            by_link.dom().contains(old) && old == minted_key(hint, by_link[old].handle) implies {
            &&& by_link.dom().contains(key)
            &&& walk_one(collection, links, walk, item).carried.contains(by_link[key].handle)
            &&& !text_lt(by_link[old].handle, by_link[key].handle)
        } by {
            assert(is_heir(by_link, hint, old));
        }
    } else {
        assert forall|old: Text|
            #![trigger by_link[old]]
            by_link.dom().contains(old) && old == minted_key(hint, by_link[old].handle) implies false by {
            assert(is_heir(by_link, hint, old));
        }
    }
}

/// Every row of the old spine that a rebuild does not write again is
/// dropped: as a renumbering where its state was carried, and as the
/// deletion it is where it was not.
pub proof fn lemma_every_row_left_behind_is_dropped(
    collection: Text,
    spine: Seq<PlacementView>,
    written: Set<Text>,
    carried: Set<Text>,
    k: int,
)
    requires
        0 <= k < spine.len(),
        !written.contains(spine[k].handle),
    ensures
        spine_drops(collection, spine, written, carried).contains(
            WriteOpView::DropPlacement {
                collection,
                handle: spine[k].handle,
                reason: if carried.contains(spine[k].handle) {
                    PimdirDropReason::Rekeyed
                } else {
                    PimdirDropReason::Deleted
                },
            },
        ),
    decreases spine.len(),
{
    let rest = spine.drop_last();
    let before = spine_drops(collection, rest, written, carried);
    let after = spine_drops(collection, spine, written, carried);
    let op = WriteOpView::DropPlacement {
        collection,
        handle: spine[k].handle,
        reason: if carried.contains(spine[k].handle) {
            PimdirDropReason::Rekeyed
        } else {
            PimdirDropReason::Deleted
        },
    };
    if k < rest.len() {
        assert(rest[k] == spine[k]);
        lemma_every_row_left_behind_is_dropped(collection, rest, written, carried, k);
        let i = before.index_of(op);
        assert(after[i] == op);
    } else {
        assert(after[before.len() as int] == op);
    }
}

/// What a rebuild counts as dropped is the pending state of the rows it
/// carried nowhere, each once, and nothing else.
pub proof fn lemma_every_lost_state_is_counted(spine: Seq<PlacementView>, carried: Set<Text>)
    ensures
        lost_count(spine, carried) == spine.filter(
            |old: PlacementView|
                old.status != PimdirStatus::Clean && !carried.contains(old.handle),
        ).len(),
    decreases spine.len(),
{
    let lost = |old: PlacementView|
        old.status != PimdirStatus::Clean && !carried.contains(old.handle);
    if spine.len() > 0 {
        lemma_every_lost_state_is_counted(spine.drop_last(), carried);
        assert(spine =~= spine.drop_last().push(spine.last()));
        reveal(Seq::filter);
        assert(spine.filter(lost) == if lost(spine.last()) {
            spine.drop_last().filter(lost).push(spine.last())
        } else {
            spine.drop_last().filter(lost)
        });
    } else {
        reveal(Seq::filter);
    }
}

/// The spine is every old row but the pending creates, and the keys that
/// stay taken are those the creates hold.
pub proof fn lemma_the_spine_and_the_staging_part_the_old_rows(old: Seq<PlacementView>, i: int)
    requires
        0 <= i < old.len(),
    ensures
        old[i].status != PimdirStatus::Created ==> spine_of(old).contains(old[i]),
        old[i].status == PimdirStatus::Created && old[i].link_id is Some ==> staged_links(
            old,
        ).contains(old[i].link_id->0),
        forall|link: Text| #[trigger]
            staged_links(old).contains(link) ==> exists|j: int|
                0 <= j < old.len() && (#[trigger] old[j]).status == PimdirStatus::Created
                    && old[j].link_id == Some(link),
    decreases old.len(),
{
    lemma_staged(old);
    let rest = old.drop_last();
    if i < rest.len() {
        lemma_the_spine_and_the_staging_part_the_old_rows(rest, i);
        assert(rest[i] == old[i]);
        if old[i].status != PimdirStatus::Created {
            let k = spine_of(rest).index_of(old[i]);
            assert(spine_of(old)[k] == old[i]);
        }
    } else if old[i].status != PimdirStatus::Created {
        assert(spine_of(old)[spine_of(rest).len() as int] == old[i]);
    }
}

/// A rebuild asks for every new handle once, in order, at most two hundred
/// and fifty-six at a time, and each request is for what the one before
/// left.
pub proof fn lemma_chunks_name_every_handle(unresolved: Seq<Text>)
    ensures
        next_chunk(unresolved) + unresolved.skip(next_chunk(unresolved).len() as int)
            == unresolved,
        next_chunk(unresolved).len() <= 256,
        unresolved.len() > 0 ==> next_chunk(unresolved).len() > 0,
        unresolved.len() <= 256 ==> next_chunk(unresolved) == unresolved,
        unresolved.len() > 256 ==> next_chunk(unresolved).len() == 256,
{
    assert(next_chunk(unresolved) + unresolved.skip(next_chunk(unresolved).len() as int)
        =~= unresolved);
}

/// What is known of a handle is what was fetched of it last; a fetch says
/// nothing of another handle.
pub proof fn lemma_a_fetch_resolves_its_handles(
    resolved: Map<Text, ResolvedView>,
    fetched: Seq<FetchedItemView>,
    handle: Text,
)
    ensures
        (forall|i: int| 0 <= i < fetched.len() ==> (#[trigger] fetched[i]).handle != handle)
            ==> resolved_with(resolved, fetched).dom().contains(handle) == resolved.dom().contains(
            handle,
        ) && (resolved.dom().contains(handle) ==> resolved_with(resolved, fetched)[handle]
            == resolved[handle]),
        forall|i: int|
            0 <= i < fetched.len() && (#[trigger] fetched[i]).handle == handle && (forall|j: int|
                i < j < fetched.len() ==> (#[trigger] fetched[j]).handle != handle) ==> {
                let found = resolved_with(resolved, fetched)[handle];
                &&& resolved_with(resolved, fetched).dom().contains(handle)
                &&& found.link_id == fetched[i].link_id
                &&& found.summary == fetched[i].summary
                &&& found.sort_key == fetched[i].sort_key
                &&& found.revision == fetched[i].revision
            },
    decreases fetched.len(),
{
    if fetched.len() > 0 {
        let rest = fetched.drop_last();
        lemma_a_fetch_resolves_its_handles(resolved, rest, handle);
        assert(fetched[fetched.len() - 1] == fetched.last());
        assert forall|i: int| 0 <= i < rest.len() implies #[trigger] rest[i] == fetched[i] by {
        }
        if fetched.last().handle != handle {
            assert forall|i: int|
                0 <= i < fetched.len() && (#[trigger] fetched[i]).handle == handle && (forall|j: int|
                    i < j < fetched.len() ==> (#[trigger] fetched[j]).handle != handle) implies {
                let found = resolved_with(resolved, fetched)[handle];
                &&& resolved_with(resolved, fetched).dom().contains(handle)
                &&& found.link_id == fetched[i].link_id
                &&& found.summary == fetched[i].summary
                &&& found.sort_key == fetched[i].sort_key
                &&& found.revision == fetched[i].revision
            } by {
                assert(rest[i] == fetched[i]);
                assert forall|j: int| i < j < rest.len() implies (#[trigger] rest[j]).handle
                    != handle by {
                    assert(fetched[j].handle != handle);
                }
            }
            if forall|i: int| 0 <= i < fetched.len() ==> (#[trigger] fetched[i]).handle != handle {
                assert forall|i: int| 0 <= i < rest.len() implies (#[trigger] rest[i]).handle
                    != handle by {
                    assert(fetched[i].handle != handle);
                }
            }
        }
    }
}

/// A rekey goes through its requests in turn: it loads the whole collection,
/// enumerates it anew from the start, and reports at the end what it counted
/// when it wrote.
pub proof fn lemma_a_rekey_asks_in_turn(
    before: RekeyView,
    arg: Option<ArgView>,
    after: RekeyView,
    step: RekeyStep,
)
    requires
        rekey_steps(before, arg, after, step),
    ensures
        after.collection == before.collection,
        before.phase is Start && arg is None ==> step == RekeyStep::Wants(
            YieldView::WantsLoad { collection: before.collection, scope: LoadScopeView::All },
        ) && after.phase is Loading,
        before.phase is Loading && (arg matches Some(ArgView::Load(_))) ==> step
            == RekeyStep::Wants(
            YieldView::WantsEnumerate { collection: before.collection, cursor: None },
        ) && after.phase is Enumerating,
        before.phase matches RekeyPhase::Writing(report) ==> (arg == Some(ArgView::Write) ==> step
            == RekeyStep::Ends(Ok(report)) && after.phase is Done),
{
}

} // verus!

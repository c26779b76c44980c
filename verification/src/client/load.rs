//! # Loading
//!
//! A collection's hub as its rows tell it, and the placements one source
//! sees of it. The rows come in as arguments, in the order the statements
//! yield them.

use crate::client::rows::{
    attach_address, binding_from_row, binding_of_row, item_from_row, item_of_row, own_columns,
    row_of_binding, row_of_item, with_people, with_person, without_people, BindingRowView,
    binding_fits, can_list, lemma_a_summary_is_its_columns_and_its_people, ItemRowView,
    PimdirBindingRow, PimdirItemRow,
};
use crate::client::write::binding_rows_of;
use crate::codec::{conflict_from_str, conflict_text, lemma_a_policy_is_its_spelling};
use crate::collection::{PimdirCheckpoint, PimdirCollectionId};
use crate::hub::{
    projection, BindingView, HubItemView, HubView, PimdirHub, PimdirHubConflict, PimdirHubItem,
    PimdirSourceId,
};
use crate::list::push_to;
use crate::load::{LoadScopeView, LoadedView, PimdirLoadScope, PimdirLoaded};
use crate::object::PimdirHash;
use crate::placement::{
    OriginView, PimdirFlags, PimdirHandle, PimdirLevel, PimdirLinkId, PimdirOrigin,
    PimdirPlacement, PimdirSortKey, PimdirStatus, PlacementView,
};
use crate::summary::{
    lemma_a_role_is_its_spelling, AddressView, PimdirAddress, PimdirAddressRole, PimdirSummary,
    SummaryView,
};
use crate::text::Text;
use crate::text_map::{in_order, lemma_ascending_distinct, lemma_order_of_finite, TextMap};
use vstd::prelude::*;
use vstd::string::*;

verus! {

/// A summary row: the item it belongs to and what its columns say, the
/// addresses standing in a table of their own.
#[derive(Debug, PartialEq, Eq)]
pub struct PimdirSummaryRow {
    /// The item.
    pub link_id: String,
    /// The summary, its addresses empty.
    pub summary: PimdirSummary,
}

/// What a [`PimdirSummaryRow`] says, by value.
#[verifier::ext_equal]
pub struct SummaryRowView {
    pub link_id: Text,
    pub summary: SummaryView,
}

impl View for PimdirSummaryRow {
    type V = SummaryRowView;

    open spec fn view(&self) -> SummaryRowView {
        SummaryRowView {
            link_id: self.link_id@,
            summary: self.summary@,
        }
    }
}

impl DeepView for PimdirSummaryRow {
    type V = SummaryRowView;

    open spec fn deep_view(&self) -> SummaryRowView {
        self@
    }
}

impl Clone for PimdirSummaryRow {
    fn clone(&self) -> (copy: Self)
        ensures
            copy@ == self@,
    {
        PimdirSummaryRow {
            link_id: self.link_id.clone(),
            summary: self.summary.clone(),
        }
    }
}

/// An address row of an item.
#[derive(Debug, PartialEq, Eq)]
pub struct PimdirAddressRow {
    /// The item.
    pub link_id: String,
    /// The role, as its column spells it.
    pub role: String,
    /// The address.
    pub address: String,
    /// The display name.
    pub name: Option<String>,
}

/// What a [`PimdirAddressRow`] says, by value.
#[verifier::ext_equal]
pub struct AddressRowView {
    pub link_id: Text,
    pub role: Text,
    pub address: Text,
    pub name: Option<Text>,
}

impl View for PimdirAddressRow {
    type V = AddressRowView;

    open spec fn view(&self) -> AddressRowView {
        AddressRowView {
            link_id: self.link_id@,
            role: self.role@,
            address: self.address@,
            name: self.name.deep_view(),
        }
    }
}

impl DeepView for PimdirAddressRow {
    type V = AddressRowView;

    open spec fn deep_view(&self) -> AddressRowView {
        self@
    }
}

impl Clone for PimdirAddressRow {
    fn clone(&self) -> (copy: Self)
        ensures
            copy@ == self@,
    {
        PimdirAddressRow {
            link_id: self.link_id.clone(),
            role: self.role.clone(),
            address: self.address.clone(),
            name: self.name.clone(),
        }
    }
}

/// A handle no binding holds, with the flags the enumeration reported.
#[derive(Debug, PartialEq, Eq)]
pub struct PimdirProbe {
    /// The handle.
    pub handle: PimdirHandle,
    /// The flags.
    pub flags: PimdirFlags,
}

/// What a [`PimdirProbe`] says, by value.
#[verifier::ext_equal]
pub struct ProbeView {
    pub handle: Text,
    pub flags: Option<Set<Text>>,
}

impl View for PimdirProbe {
    type V = ProbeView;

    open spec fn view(&self) -> ProbeView {
        ProbeView {
            handle: self.handle@,
            flags: self.flags@,
        }
    }
}

impl DeepView for PimdirProbe {
    type V = ProbeView;

    open spec fn deep_view(&self) -> ProbeView {
        self@
    }
}

impl Clone for PimdirProbe {
    fn clone(&self) -> (copy: Self)
        ensures
            copy@ == self@,
    {
        PimdirProbe {
            handle: self.handle.clone(),
            flags: self.flags.clone(),
        }
    }
}

/// The policy a column spells; the default where it spells none.
pub open spec fn policy_of(text: Option<Text>) -> PimdirHubConflict {
    match text {
        Some(text) => if text == conflict_text(PimdirHubConflict::PreferIncoming) {
            PimdirHubConflict::PreferIncoming
        } else if text == conflict_text(PimdirHubConflict::PreferExisting) {
            PimdirHubConflict::PreferExisting
        } else {
            PimdirHubConflict::Manual
        },
        None => PimdirHubConflict::Manual,
    }
}

/// The role a column spells, or `None` for one the format lacks.
pub open spec fn role_of(text: Text) -> Option<PimdirAddressRole> {
    if exists|role: PimdirAddressRole| #[trigger] role.text() == text {
        Some(choose|role: PimdirAddressRole| #[trigger] role.text() == text)
    } else {
        None
    }
}

/// The items some rows hold, by link id.
pub open spec fn with_items(rows: Seq<ItemRowView>) -> Map<Text, HubItemView>
    decreases rows.len(),
{
    if rows.len() == 0 {
        Map::empty()
    } else {
        with_items(rows.drop_last()).insert(rows.last().link_id, item_of_row(rows.last()))
    }
}

/// Items with one more binding; the same where its item is not there.
pub open spec fn with_binding(items: Map<Text, HubItemView>, row: BindingRowView) -> Map<
    Text,
    HubItemView,
> {
    if items.dom().contains(row.link_id) {
        let item = items[row.link_id];
        items.insert(
            row.link_id,
            HubItemView { sources: item.sources.insert(row.source, binding_of_row(row)), ..item },
        )
    } else {
        items
    }
}

/// Items with the bindings some rows hold.
pub open spec fn with_bindings(
    items: Map<Text, HubItemView>,
    rows: Seq<BindingRowView>,
) -> Map<Text, HubItemView>
    decreases rows.len(),
{
    if rows.len() == 0 {
        items
    } else {
        with_binding(with_bindings(items, rows.drop_last()), rows.last())
    }
}

/// Items with one more summary; the same where its item is not there.
pub open spec fn with_summary(items: Map<Text, HubItemView>, row: SummaryRowView) -> Map<
    Text,
    HubItemView,
> {
    if items.dom().contains(row.link_id) {
        items.insert(
            row.link_id,
            HubItemView { summary: Some(row.summary), ..items[row.link_id] },
        )
    } else {
        items
    }
}

/// Items with the summaries some rows hold.
pub open spec fn with_summaries(
    items: Map<Text, HubItemView>,
    rows: Seq<SummaryRowView>,
) -> Map<Text, HubItemView>
    decreases rows.len(),
{
    if rows.len() == 0 {
        items
    } else {
        with_summary(with_summaries(items, rows.drop_last()), rows.last())
    }
}

/// Items with one more address; the same where its item has no summary, or
/// the role is one the format lacks.
pub open spec fn with_address(items: Map<Text, HubItemView>, row: AddressRowView) -> Map<
    Text,
    HubItemView,
> {
    match role_of(row.role) {
        Some(role) => if items.dom().contains(row.link_id) {
            let item = items[row.link_id];
            match item.summary {
                Some(summary) => items.insert(
                    row.link_id,
                    HubItemView {
                        summary: Some(
                            with_person(
                                summary,
                                role,
                                AddressView { address: row.address, name: row.name },
                            ),
                        ),
                        ..item
                    },
                ),
                None => items,
            }
        } else {
            items
        },
        None => items,
    }
}

/// Items with the addresses some rows hold.
pub open spec fn with_addresses(
    items: Map<Text, HubItemView>,
    rows: Seq<AddressRowView>,
) -> Map<Text, HubItemView>
    decreases rows.len(),
{
    if rows.len() == 0 {
        items
    } else {
        with_address(with_addresses(items, rows.drop_last()), rows.last())
    }
}

/// The hub a collection's rows tell.
pub open spec fn hub_of(
    policy: Option<Text>,
    items: Seq<ItemRowView>,
    bindings: Seq<BindingRowView>,
    summaries: Seq<SummaryRowView>,
    addresses: Seq<AddressRowView>,
) -> HubView {
    HubView {
        items: with_addresses(
            with_summaries(with_bindings(with_items(items), bindings), summaries),
            addresses,
        ),
        conflict: policy_of(policy),
    }
}

/// The item rows of a hub.
pub open spec fn item_rows_of(items: Map<Text, HubItemView>, links: Seq<Text>) -> Seq<ItemRowView>
    decreases links.len(),
{
    if links.len() == 0 {
        Seq::empty()
    } else {
        item_rows_of(items, links.drop_last()).push(row_of_item(links.last(), items[links.last()]))
    }
}

/// The binding rows of a hub.
pub open spec fn all_binding_rows(items: Map<Text, HubItemView>, links: Seq<Text>) -> Seq<
    BindingRowView,
>
    decreases links.len(),
{
    if links.len() == 0 {
        Seq::empty()
    } else {
        let item = items[links.last()];
        all_binding_rows(items, links.drop_last()) + binding_rows_of(
            links.last(),
            item.sources,
            in_order(item.sources.dom()),
        )
    }
}

/// The summary rows of a hub: the columns of each item that has one.
pub open spec fn summary_rows_of(items: Map<Text, HubItemView>, links: Seq<Text>) -> Seq<
    SummaryRowView,
>
    decreases links.len(),
{
    if links.len() == 0 {
        Seq::empty()
    } else {
        let rows = summary_rows_of(items, links.drop_last());
        match items[links.last()].summary {
            Some(summary) => rows.push(
                SummaryRowView { link_id: links.last(), summary: without_people(summary) },
            ),
            None => rows,
        }
    }
}

/// The address rows of one item's people.
pub open spec fn people_rows(link: Text, people: Seq<(PimdirAddressRole, AddressView)>) -> Seq<
    AddressRowView,
> {
    people.map_values(
        |person: (PimdirAddressRole, AddressView)|
            AddressRowView {
                link_id: link,
                role: person.0.text(),
                address: person.1.address,
                name: person.1.name,
            },
    )
}

/// The address rows of a hub.
pub open spec fn address_rows_of(items: Map<Text, HubItemView>, links: Seq<Text>) -> Seq<
    AddressRowView,
>
    decreases links.len(),
{
    if links.len() == 0 {
        Seq::empty()
    } else {
        let rows = address_rows_of(items, links.drop_last());
        match items[links.last()].summary {
            Some(summary) => rows + people_rows(links.last(), summary.addresses()),
            None => rows,
        }
    }
}

/// Whether an item says nothing its rows cannot hold.
pub open spec fn item_fits(item: HubItemView) -> bool {
    &&& can_list(item.flags)
    &&& item.sources.dom().finite()
    &&& forall|source: Text| #[trigger]
        item.sources.dom().contains(source) ==> binding_fits(item.sources[source])
}

/// Whether the rows are those of a hub.
pub open spec fn stored_as(
    hub: HubView,
    policy: Option<Text>,
    items: Seq<ItemRowView>,
    bindings: Seq<BindingRowView>,
    summaries: Seq<SummaryRowView>,
    addresses: Seq<AddressRowView>,
) -> bool {
    let links = in_order(hub.items.dom());
    &&& hub.items.dom().finite()
    &&& forall|link: Text| #[trigger] hub.items.dom().contains(link) ==> item_fits(hub.items[link])
    &&& policy == Some(conflict_text(hub.conflict))
    &&& items == item_rows_of(hub.items, links)
    &&& bindings == all_binding_rows(hub.items, links)
    &&& summaries == summary_rows_of(hub.items, links)
    &&& addresses == address_rows_of(hub.items, links)
}

/// Whether an item row reads as the item it was written from.
spec fn item_reads_back(row: ItemRowView) -> bool {
    forall|link: Text, item: HubItemView|
        can_list(item.flags) && row == #[trigger] row_of_item(link, item) ==> item_of_row(row)
            == own_columns(item)
}

/// Whether a binding row reads as the binding it was written from.
spec fn binding_reads_back(row: BindingRowView) -> bool {
    forall|link: Text, source: Text, binding: BindingView|
        binding_fits(binding) && row == #[trigger] row_of_binding(link, source, binding)
            ==> binding_of_row(row) == binding
}

/// Reads a role from its column.
fn role_from_str(text: &str) -> (role: Option<PimdirAddressRole>)
    ensures
        role == role_of(text@),
{
    let role = PimdirAddressRole::parse(text);
    proof {
        if let Some(role) = role {
            assert(role.text() == text@);
            let named = choose|other: PimdirAddressRole| #[trigger] other.text() == text@;
            lemma_a_role_is_its_spelling(role, named);
        }
    }
    role
}

/// Reads a policy from its column.
fn policy_from_column(text: &Option<String>) -> (policy: PimdirHubConflict)
    ensures
        policy == policy_of(text.deep_view()),
{
    match text {
        None => PimdirHubConflict::Manual,
        Some(text) => {
            let policy = conflict_from_str(text.as_str());
            proof {
                lemma_a_policy_is_its_spelling(policy, PimdirHubConflict::PreferIncoming);
                lemma_a_policy_is_its_spelling(policy, PimdirHubConflict::PreferExisting);
            }
            policy
        },
    }
}

/// Reads a collection's hub from its rows: its policy, items, bindings,
/// summaries and addresses. A row whose item is not among those read is
/// left out, and so is an address under a role the format lacks.
///
/// The rows of a hub read as that hub: nothing written is lost.
pub fn read_hub(
    policy: &Option<String>,
    items: &Vec<PimdirItemRow>,
    bindings: &Vec<PimdirBindingRow>,
    summaries: &Vec<PimdirSummaryRow>,
    addresses: &Vec<PimdirAddressRow>,
) -> (hub: PimdirHub)
    ensures
        hub@ == hub_of(
            policy.deep_view(),
            items.deep_view(),
            bindings.deep_view(),
            summaries.deep_view(),
            addresses.deep_view(),
        ),
        forall|written: HubView| #[trigger]
            stored_as(
                written,
                policy.deep_view(),
                items.deep_view(),
                bindings.deep_view(),
                summaries.deep_view(),
                addresses.deep_view(),
            ) ==> hub@ == written,
{
    let conflict = policy_from_column(policy);
    let mut held: TextMap<PimdirHubItem> = TextMap::new();
    let ghost item_rows = items.deep_view();
    let mut i: usize = 0;
    while i < items.len()
        invariant
            i <= items.len(),
            item_rows == items.deep_view(),
            held@ == with_items(item_rows.take(i as int)),
            forall|j: int| 0 <= j < i ==> item_reads_back(#[trigger] item_rows[j]),
        decreases items.len() - i,
    {
        let (link, item) = item_from_row(items[i].clone());
        proof {
            assert(item_rows.take(i + 1).drop_last() =~= item_rows.take(i as int));
            assert(item_rows.take(i + 1).last() == item_rows[i as int]);
            assert(item_reads_back(item_rows[i as int]));
        }
        held.insert(link.0, item);
        i = i + 1;
    }
    assert(item_rows.take(i as int) =~= item_rows);
    let ghost bare = held@;
    let ghost binding_rows = bindings.deep_view();
    let mut k: usize = 0;
    while k < bindings.len()
        invariant
            k <= bindings.len(),
            binding_rows == bindings.deep_view(),
            held@ == with_bindings(bare, binding_rows.take(k as int)),
            forall|j: int| 0 <= j < k ==> binding_reads_back(#[trigger] binding_rows[j]),
        decreases bindings.len() - k,
    {
        let (link, source, binding) = binding_from_row(bindings[k].clone());
        proof {
            assert(binding_rows.take(k + 1).drop_last() =~= binding_rows.take(k as int));
            assert(binding_rows.take(k + 1).last() == binding_rows[k as int]);
            assert(binding_reads_back(binding_rows[k as int]));
        }
        file_binding(&mut held, link, source, binding, Ghost(binding_rows[k as int]));
        k = k + 1;
    }
    assert(binding_rows.take(k as int) =~= binding_rows);
    file_summaries(&mut held, summaries);
    file_addresses(&mut held, addresses);
    let hub = PimdirHub { items: held, conflict };
    proof {
        assert forall|written: HubView| #[trigger]
            stored_as(
                written,
                policy.deep_view(),
                item_rows,
                binding_rows,
                summaries.deep_view(),
                addresses.deep_view(),
            ) implies hub@ == written by {
            lemma_a_hub_is_its_rows(
                written,
                policy.deep_view(),
                item_rows,
                binding_rows,
                summaries.deep_view(),
                addresses.deep_view(),
            );
        }
    }
    hub
}

/// Files a binding under its item, where that item is held.
fn file_binding(
    held: &mut TextMap<PimdirHubItem>,
    link: PimdirLinkId,
    source: PimdirSourceId,
    binding: crate::hub::PimdirBinding,
    Ghost(row): Ghost<BindingRowView>,
)
    requires
        link@ == row.link_id,
        source@ == row.source,
        binding@ == binding_of_row(row),
    ensures
        final(held)@ == with_binding(old(held)@, row),
{
    let ghost before = held@;
    if let Some(item) = held.remove(link.as_str()) {
        let mut item = item;
        item.sources.insert(source.0, binding);
        held.insert(link.0, item);
    }
    assert(held@ =~= with_binding(before, row));
}

/// Files summaries under their items, where those are held.
fn file_summaries(held: &mut TextMap<PimdirHubItem>, rows: &Vec<PimdirSummaryRow>)
    ensures
        final(held)@ == with_summaries(old(held)@, rows.deep_view()),
{
    let ghost bare = held@;
    let ghost all = rows.deep_view();
    let mut i: usize = 0;
    while i < rows.len()
        invariant
            i <= rows.len(),
            all == rows.deep_view(),
            held@ == with_summaries(bare, all.take(i as int)),
        decreases rows.len() - i,
    {
        let ghost before = held@;
        let row = &rows[i];
        proof {
            assert(all.take(i + 1).drop_last() =~= all.take(i as int));
            assert(all.take(i + 1).last() == row@);
        }
        if let Some(item) = held.remove(row.link_id.as_str()) {
            let mut item = item;
            item.summary = Some(row.summary.clone());
            held.insert(row.link_id.clone(), item);
        }
        assert(held@ =~= with_summary(before, row@));
        i = i + 1;
    }
    assert(all.take(i as int) =~= all);
}

/// Files addresses under their items' summaries.
fn file_addresses(held: &mut TextMap<PimdirHubItem>, rows: &Vec<PimdirAddressRow>)
    ensures
        final(held)@ == with_addresses(old(held)@, rows.deep_view()),
{
    let ghost bare = held@;
    let ghost all = rows.deep_view();
    let mut i: usize = 0;
    while i < rows.len()
        invariant
            i <= rows.len(),
            all == rows.deep_view(),
            held@ == with_addresses(bare, all.take(i as int)),
        decreases rows.len() - i,
    {
        let ghost before = held@;
        let row = &rows[i];
        proof {
            assert(all.take(i + 1).drop_last() =~= all.take(i as int));
            assert(all.take(i + 1).last() == row@);
        }
        if let Some(role) = role_from_str(row.role.as_str()) {
            if let Some(item) = held.remove(row.link_id.as_str()) {
                let mut item = item;
                if let Some(summary) = item.summary {
                    let person = PimdirAddress {
                        address: row.address.clone(),
                        name: row.name.clone(),
                    };
                    item.summary = Some(attach_address(summary, role, person));
                } else {
                    item.summary = None;
                }
                held.insert(row.link_id.clone(), item);
            }
        }
        assert(held@ =~= with_address(before, row@));
        i = i + 1;
    }
    assert(all.take(i as int) =~= all);
}

/// The items of a hub as their own rows tell them: without what stands in
/// other tables.
spec fn bare_items(items: Map<Text, HubItemView>, links: Seq<Text>) -> Map<Text, HubItemView> {
    Map::new(|link: Text| links.contains(link), |link: Text| own_columns(items[link]))
}

/// The items with the bindings of the first ones.
spec fn bound_items(
    items: Map<Text, HubItemView>,
    links: Seq<Text>,
    first: Seq<Text>,
) -> Map<Text, HubItemView> {
    Map::new(
        |link: Text| links.contains(link),
        |link: Text|
            if first.contains(link) {
                HubItemView { summary: None, ..items[link] }
            } else {
                own_columns(items[link])
            },
    )
}

/// The items with the summary columns of the first ones.
spec fn summed_items(
    items: Map<Text, HubItemView>,
    links: Seq<Text>,
    first: Seq<Text>,
) -> Map<Text, HubItemView> {
    Map::new(
        |link: Text| links.contains(link),
        |link: Text|
            HubItemView {
                summary: if first.contains(link) {
                    match items[link].summary {
                        Some(summary) => Some(without_people(summary)),
                        None => None,
                    }
                } else {
                    None
                },
                ..items[link]
            },
    )
}

/// The items with the people of the first ones.
spec fn whole_items(
    items: Map<Text, HubItemView>,
    links: Seq<Text>,
    first: Seq<Text>,
) -> Map<Text, HubItemView> {
    Map::new(
        |link: Text| links.contains(link),
        |link: Text|
            HubItemView {
                summary: match items[link].summary {
                    Some(summary) => Some(
                        if first.contains(link) {
                            summary
                        } else {
                            without_people(summary)
                        },
                    ),
                    None => None,
                },
                ..items[link]
            },
    )
}

proof fn lemma_contains_push(list: Seq<Text>, item: Text)
    ensures
        forall|other: Text| #[trigger]
            list.push(item).contains(other) == (list.contains(other) || other == item),
{
    let longer = list.push(item);
    assert forall|other: Text| #[trigger] longer.contains(other) == (list.contains(other) || other
        == item) by {
        if list.contains(other) {
            assert(longer[list.index_of(other)] == other);
        }
        assert(longer[list.len() as int] == item);
        if longer.contains(other) && other != item {
            let k = longer.index_of(other);
            assert(list[k] == other);
        }
    }
}

proof fn lemma_items_back(items: Map<Text, HubItemView>, links: Seq<Text>)
    requires
        forall|j: int| 0 <= j < links.len() ==> can_list(items[#[trigger] links[j]].flags),
        forall|j: int|
            0 <= j < item_rows_of(items, links).len() ==> item_reads_back(
                #[trigger] item_rows_of(items, links)[j],
            ),
    ensures
        with_items(item_rows_of(items, links)) == bare_items(items, links),
    decreases links.len(),
{
    if links.len() == 0 {
        assert(bare_items(items, links) =~= Map::empty());
    } else {
        let rest = links.drop_last();
        let link = links.last();
        let rows = item_rows_of(items, links);
        let before = item_rows_of(items, rest);
        assert(rows.drop_last() =~= before);
        assert forall|j: int| 0 <= j < before.len() implies item_reads_back(#[trigger] before[j]) by {
            assert(rows[j] == before[j]);
        }
        assert forall|j: int| 0 <= j < rest.len() implies can_list(
            items[#[trigger] rest[j]].flags,
        ) by {
            assert(rest[j] == links[j]);
        }
        lemma_items_back(items, rest);
        assert(rows.last() == row_of_item(link, items[link]));
        assert(item_reads_back(rows[rows.len() - 1]));
        assert(can_list(items[links[links.len() - 1]].flags));
        assert(item_of_row(rows.last()) == own_columns(items[link]));
        assert(links =~= rest.push(link));
        lemma_contains_push(rest, link);
        assert(with_items(rows) =~= bare_items(items, links));
    }
}

proof fn lemma_bindings_join(
    items: Map<Text, HubItemView>,
    a: Seq<BindingRowView>,
    b: Seq<BindingRowView>,
)
    ensures
        with_bindings(items, a + b) == with_bindings(with_bindings(items, a), b),
    decreases b.len(),
{
    if b.len() == 0 {
        assert(a + b =~= a);
    } else {
        assert((a + b).drop_last() =~= a + b.drop_last());
        assert((a + b).last() == b.last());
        lemma_bindings_join(items, a, b.drop_last());
    }
}

/// Some of the bindings of an item.
spec fn some_bindings(bindings: Map<Text, BindingView>, sources: Seq<Text>) -> Map<
    Text,
    BindingView,
> {
    Map::new(|source: Text| sources.contains(source), |source: Text| bindings[source])
}

proof fn lemma_item_bindings(
    items: Map<Text, HubItemView>,
    link: Text,
    bindings: Map<Text, BindingView>,
    sources: Seq<Text>,
)
    requires
        items.dom().contains(link),
        items[link].sources == Map::<Text, BindingView>::empty(),
        forall|j: int| 0 <= j < sources.len() ==> binding_fits(bindings[#[trigger] sources[j]]),
        forall|j: int|
            0 <= j < binding_rows_of(link, bindings, sources).len() ==> binding_reads_back(
                #[trigger] binding_rows_of(link, bindings, sources)[j],
            ),
    ensures
        with_bindings(items, binding_rows_of(link, bindings, sources)) == items.insert(
            link,
            HubItemView { sources: some_bindings(bindings, sources), ..items[link] },
        ),
    decreases sources.len(),
{
    let rows = binding_rows_of(link, bindings, sources);
    if sources.len() == 0 {
        assert(some_bindings(bindings, sources) =~= items[link].sources);
        assert(items.insert(
            link,
            HubItemView { sources: some_bindings(bindings, sources), ..items[link] },
        ) =~= items);
    } else {
        let rest = sources.drop_last();
        let source = sources.last();
        let before = binding_rows_of(link, bindings, rest);
        assert(rows.drop_last() =~= before);
        assert forall|j: int| 0 <= j < before.len() implies binding_reads_back(
            #[trigger] before[j],
        ) by {
            assert(rows[j] == before[j]);
        }
        assert forall|j: int| 0 <= j < rest.len() implies binding_fits(
            bindings[#[trigger] rest[j]],
        ) by {
            assert(rest[j] == sources[j]);
        }
        lemma_item_bindings(items, link, bindings, rest);
        assert(rows.last() == row_of_binding(link, source, bindings[source]));
        assert(binding_reads_back(rows[rows.len() - 1]));
        assert(binding_fits(bindings[sources[sources.len() - 1]]));
        assert(binding_of_row(rows.last()) == bindings[source]);
        assert(sources =~= rest.push(source));
        lemma_contains_push(rest, source);
        assert(some_bindings(bindings, rest).insert(source, bindings[source]) =~= some_bindings(
            bindings,
            sources,
        ));
        assert(with_bindings(items, rows) =~= items.insert(
            link,
            HubItemView { sources: some_bindings(bindings, sources), ..items[link] },
        ));
    }
}

proof fn lemma_bindings_back(
    items: Map<Text, HubItemView>,
    links: Seq<Text>,
    n: int,
)
    requires
        0 <= n <= links.len(),
        links.no_duplicates(),
        forall|j: int| 0 <= j < links.len() ==> item_fits(items[#[trigger] links[j]]),
        forall|j: int|
            0 <= j < all_binding_rows(items, links.take(n)).len() ==> binding_reads_back(
                #[trigger] all_binding_rows(items, links.take(n))[j],
            ),
    ensures
        with_bindings(bare_items(items, links), all_binding_rows(items, links.take(n)))
            == bound_items(items, links, links.take(n)),
    decreases n,
{
    let first = links.take(n);
    let rows = all_binding_rows(items, first);
    if n == 0 {
        assert(rows.len() == 0);
        assert(bare_items(items, links) =~= bound_items(items, links, first));
    } else {
        let rest = links.take(n - 1);
        let link = links[n - 1];
        let item = items[link];
        assert(first.drop_last() =~= rest);
        assert(first.last() == link);
        let before = all_binding_rows(items, rest);
        let sources = in_order(item.sources.dom());
        let own = binding_rows_of(link, item.sources, sources);
        assert(rows == before + own);
        assert forall|j: int| 0 <= j < before.len() implies binding_reads_back(
            #[trigger] before[j],
        ) by {
            assert(rows[j] == before[j]);
        }
        lemma_bindings_back(items, links, n - 1);
        let start = bound_items(items, links, rest);
        lemma_bindings_join(bare_items(items, links), before, own);
        assert(links.contains(links[n - 1]));
        assert(!rest.contains(link)) by {
            if rest.contains(link) {
                let k = rest.index_of(link);
                assert(links[k] == links[n - 1]);
            }
        }
        assert forall|j: int| 0 <= j < own.len() implies binding_reads_back(#[trigger] own[j]) by {
            assert(rows[before.len() + j] == own[j]);
        }
        lemma_order_of_finite(item.sources.dom());
        assert forall|j: int| 0 <= j < sources.len() implies binding_fits(
            item.sources[#[trigger] sources[j]],
        ) by {
            assert(sources.to_set().contains(sources[j]));
            assert(item_fits(items[links[n - 1]]));
        }
        lemma_item_bindings(start, link, item.sources, sources);
        assert forall|source: Text| sources.contains(source) == item.sources.dom().contains(source) by {
            assert(sources.to_set().contains(source) == sources.contains(source));
        }
        assert(some_bindings(item.sources, sources) =~= item.sources);
        assert(first =~= rest.push(link));
        lemma_contains_push(rest, link);
        assert(with_bindings(bare_items(items, links), rows) =~= bound_items(items, links, first));
    }
}

proof fn lemma_summaries_back(items: Map<Text, HubItemView>, links: Seq<Text>, n: int)
    requires
        0 <= n <= links.len(),
        links.no_duplicates(),
    ensures
        with_summaries(
            bound_items(items, links, links),
            summary_rows_of(items, links.take(n)),
        ) == summed_items(items, links, links.take(n)),
    decreases n,
{
    let first = links.take(n);
    if n == 0 {
        assert(bound_items(items, links, links) =~= summed_items(items, links, first));
    } else {
        let rest = links.take(n - 1);
        let link = links[n - 1];
        assert(first.drop_last() =~= rest);
        assert(first.last() == link);
        lemma_summaries_back(items, links, n - 1);
        let rows = summary_rows_of(items, first);
        let before = summary_rows_of(items, rest);
        assert(links.contains(links[n - 1]));
        assert(!rest.contains(link)) by {
            if rest.contains(link) {
                let k = rest.index_of(link);
                assert(links[k] == links[n - 1]);
            }
        }
        assert(first =~= rest.push(link));
        lemma_contains_push(rest, link);
        match items[link].summary {
            Some(summary) => {
                assert(rows.drop_last() =~= before);
            },
            None => {},
        }
        assert(with_summaries(bound_items(items, links, links), rows) =~= summed_items(
            items,
            links,
            first,
        ));
    }
}

proof fn lemma_addresses_join(
    items: Map<Text, HubItemView>,
    a: Seq<AddressRowView>,
    b: Seq<AddressRowView>,
)
    ensures
        with_addresses(items, a + b) == with_addresses(with_addresses(items, a), b),
    decreases b.len(),
{
    if b.len() == 0 {
        assert(a + b =~= a);
    } else {
        assert((a + b).drop_last() =~= a + b.drop_last());
        assert((a + b).last() == b.last());
        lemma_addresses_join(items, a, b.drop_last());
    }
}

proof fn lemma_item_people(
    items: Map<Text, HubItemView>,
    link: Text,
    summary: SummaryView,
    people: Seq<(PimdirAddressRole, AddressView)>,
)
    requires
        items.dom().contains(link),
        items[link].summary == Some(summary),
    ensures
        with_addresses(items, people_rows(link, people)) == items.insert(
            link,
            HubItemView { summary: Some(with_people(summary, people)), ..items[link] },
        ),
    decreases people.len(),
{
    let rows = people_rows(link, people);
    if people.len() == 0 {
        assert(items.insert(
            link,
            HubItemView { summary: Some(with_people(summary, people)), ..items[link] },
        ) =~= items);
    } else {
        let rest = people.drop_last();
        let (role, person) = people.last();
        assert(rows.drop_last() =~= people_rows(link, rest));
        lemma_item_people(items, link, summary, rest);
        assert(role.text() == rows.last().role);
        let named = choose|other: PimdirAddressRole| #[trigger] other.text() == role.text();
        lemma_a_role_is_its_spelling(named, role);
        assert(role_of(rows.last().role) == Some(role));
        assert((AddressView { address: rows.last().address, name: rows.last().name }) == person);
        assert(with_addresses(items, rows) =~= items.insert(
            link,
            HubItemView { summary: Some(with_people(summary, people)), ..items[link] },
        ));
    }
}

proof fn lemma_addresses_back(items: Map<Text, HubItemView>, links: Seq<Text>, n: int)
    requires
        0 <= n <= links.len(),
        links.no_duplicates(),
    ensures
        with_addresses(
            summed_items(items, links, links),
            address_rows_of(items, links.take(n)),
        ) == whole_items(items, links, links.take(n)),
    decreases n,
{
    let first = links.take(n);
    if n == 0 {
        assert(summed_items(items, links, links) =~= whole_items(items, links, first));
    } else {
        let rest = links.take(n - 1);
        let link = links[n - 1];
        assert(first.drop_last() =~= rest);
        assert(first.last() == link);
        lemma_addresses_back(items, links, n - 1);
        let rows = address_rows_of(items, first);
        let before = address_rows_of(items, rest);
        assert(links.contains(links[n - 1]));
        assert(!rest.contains(link)) by {
            if rest.contains(link) {
                let k = rest.index_of(link);
                assert(links[k] == links[n - 1]);
            }
        }
        assert(first =~= rest.push(link));
        lemma_contains_push(rest, link);
        match items[link].summary {
            Some(summary) => {
                let own = people_rows(link, summary.addresses());
                assert(rows == before + own);
                let start = whole_items(items, links, rest);
                lemma_addresses_join(summed_items(items, links, links), before, own);
                lemma_item_people(start, link, without_people(summary), summary.addresses());
                lemma_a_summary_is_its_columns_and_its_people(summary);
            },
            None => {},
        }
        assert(with_addresses(summed_items(items, links, links), rows) =~= whole_items(
            items,
            links,
            first,
        ));
    }
}

proof fn lemma_a_hub_is_its_rows(
    hub: HubView,
    policy: Option<Text>,
    items: Seq<ItemRowView>,
    bindings: Seq<BindingRowView>,
    summaries: Seq<SummaryRowView>,
    addresses: Seq<AddressRowView>,
)
    requires
        stored_as(hub, policy, items, bindings, summaries, addresses),
        forall|j: int| 0 <= j < items.len() ==> item_reads_back(#[trigger] items[j]),
        forall|j: int| 0 <= j < bindings.len() ==> binding_reads_back(#[trigger] bindings[j]),
    ensures
        hub_of(policy, items, bindings, summaries, addresses) == hub,
{
    let links = in_order(hub.items.dom());
    let n = links.len() as int;
    lemma_order_of_finite(hub.items.dom());
    assert forall|link: Text| links.contains(link) == hub.items.dom().contains(link) by {
        assert(links.to_set().contains(link) == links.contains(link));
    }
    assert(links.no_duplicates()) by {
        assert forall|i: int, j: int| 0 <= i < links.len() && 0 <= j < links.len() && i
            != j implies links[i] != links[j] by {
            if links[i] == links[j] {
                lemma_ascending_distinct(links, i, j);
            }
        }
    }
    assert forall|j: int| 0 <= j < links.len() implies item_fits(
        hub.items[#[trigger] links[j]],
    ) by {
        assert(links.contains(links[j]));
    }
    assert(links.take(n) =~= links);
    lemma_items_back(hub.items, links);
    lemma_bindings_back(hub.items, links, n);
    lemma_summaries_back(hub.items, links, n);
    lemma_addresses_back(hub.items, links, n);
    assert(whole_items(hub.items, links, links) =~= hub.items);
    lemma_a_policy_is_its_spelling(
        hub.conflict,
        PimdirHubConflict::PreferIncoming,
    );
    lemma_a_policy_is_its_spelling(
        hub.conflict,
        PimdirHubConflict::PreferExisting,
    );
}

/// A placement with the half that lives elsewhere: the origin a created one
/// is copied from, the collection a tombstone is moved to, under its own
/// handle.
pub open spec fn with_whereabouts(
    placement: PlacementView,
    origins: Map<Text, OriginView>,
    destinations: Map<Text, Text>,
) -> PlacementView {
    match placement.link_id {
        Some(link) => PlacementView {
            origin: if placement.status == PimdirStatus::Created && origins.dom().contains(link) {
                Some(origins[link])
            } else if placement.status == PimdirStatus::Tombstone && destinations.dom().contains(
                link,
            ) {
                Some(OriginView { collection: destinations[link], handle: placement.handle })
            } else {
                None
            },
            ..placement
        },
        None => placement,
    }
}

/// Whether a placement is a row the source holds.
pub open spec fn held_by(
    items: Map<Text, HubItemView>,
    source: Text,
    placement: PlacementView,
) -> bool {
    placement.link_id matches Some(link) && items.dom().contains(link)
        && items[link].sources.dom().contains(source)
}

/// The placements a load yields of those projected: under a scope of links
/// only the rows the source holds.
pub open spec fn yielded(
    items: Map<Text, HubItemView>,
    source: Text,
    bound_only: bool,
    origins: Map<Text, OriginView>,
    destinations: Map<Text, Text>,
    projected: Seq<PlacementView>,
) -> Seq<PlacementView>
    decreases projected.len(),
{
    if projected.len() == 0 {
        Seq::empty()
    } else {
        let rest = yielded(
            items,
            source,
            bound_only,
            origins,
            destinations,
            projected.drop_last(),
        );
        if bound_only && !held_by(items, source, projected.last()) {
            rest
        } else {
            rest.push(with_whereabouts(projected.last(), origins, destinations))
        }
    }
}

/// A probe as a placement: a handle and its flags, and nothing else known.
pub open spec fn probe_placement(collection: Text, probe: ProbeView) -> PlacementView {
    PlacementView {
        collection,
        handle: probe.handle,
        link_id: None,
        object: None,
        level: PimdirLevel::Probed,
        summary: None,
        sort_key: Seq::empty(),
        flags: probe.flags,
        status: PimdirStatus::Clean,
        conflict_revision: None,
        conflict_object: None,
        base: None,
        origin: None,
    }
}

/// What a load of a collection yields for a source.
pub open spec fn loaded(
    hub: HubView,
    collection: Text,
    source: Text,
    scope: LoadScopeView,
    origins: Map<Text, OriginView>,
    destinations: Map<Text, Text>,
    probes: Seq<ProbeView>,
    checkpoint: Option<Seq<u8>>,
) -> LoadedView {
    let by_link = scope is Links;
    LoadedView {
        placements: yielded(
            hub.items,
            source,
            by_link,
            origins,
            destinations,
            projection(hub.items, collection, source, in_order(hub.items.dom())),
        ) + if by_link {
            Seq::empty()
        } else {
            probes.map_values(|probe: ProbeView| probe_placement(collection, probe))
        },
        checkpoint,
    }
}

/// A placement with its whereabouts.
fn place(
    placement: &PimdirPlacement,
    origins: &TextMap<PimdirOrigin>,
    destinations: &TextMap<PimdirCollectionId>,
) -> (placed: PimdirPlacement)
    ensures
        placed@ == with_whereabouts(placement@, origins@, destinations@),
{
    let mut placed = placement.clone();
    if let Some(link) = &placement.link_id {
        let mut origin: Option<PimdirOrigin> = None;
        if placement.status == PimdirStatus::Created {
            if let Some(found) = origins.get(link.as_str()) {
                origin = Some(found.clone());
            }
        } else if placement.status == PimdirStatus::Tombstone {
            if let Some(found) = destinations.get(link.as_str()) {
                origin = Some(
                    PimdirOrigin { collection: found.clone(), handle: placement.handle.clone() },
                );
            }
        }
        placed.origin = origin;
    }
    placed
}

/// Loads a collection as a source sees it.
///
/// `scope` is a floor: the projection holds at least the placements it
/// names. A handle no binding holds is a probe, and a probe has no link id,
/// so a scope of links yields none of them; nor does it yield the copy the
/// hub offers for an item this source lacks, which is no row the source
/// holds under the key. A created placement carries its origin and a
/// tombstone its destination, both by link id, as this source's bindings
/// elsewhere tell them.
pub fn load(
    hub: &PimdirHub,
    collection: &PimdirCollectionId,
    source: &PimdirSourceId,
    scope: &PimdirLoadScope,
    origins: &TextMap<PimdirOrigin>,
    destinations: &TextMap<PimdirCollectionId>,
    probes: &Vec<PimdirProbe>,
    checkpoint: Option<PimdirCheckpoint>,
) -> (load: PimdirLoaded)
    ensures
        load@ == loaded(
            hub@,
            collection@,
            source@,
            scope@,
            origins@,
            destinations@,
            probes.deep_view(),
            checkpoint.deep_view(),
        ),
{
    let by_link = match scope {
        PimdirLoadScope::Links(_) => true,
        _ => false,
    };
    let projected = hub.project(collection, source);
    let ghost all = projected.deep_view();
    let mut placements: Vec<PimdirPlacement> = Vec::new();
    let mut i: usize = 0;
    assert(placements.deep_view() =~= Seq::empty());
    while i < projected.len()
        invariant
            i <= projected.len(),
            all == projected.deep_view(),
            placements.deep_view() == yielded(
                hub@.items,
                source@,
                by_link,
                origins@,
                destinations@,
                all.take(i as int),
            ),
        decreases projected.len() - i,
    {
        let placement = &projected[i];
        proof {
            assert(all.take(i + 1).drop_last() =~= all.take(i as int));
            assert(all.take(i + 1).last() == placement@);
        }
        let held = match &placement.link_id {
            Some(link) => match hub.items.get(link.as_str()) {
                Some(item) => item.sources.contains_key(source.as_str()),
                None => false,
            },
            None => false,
        };
        if !by_link || held {
            push_to(&mut placements, place(placement, origins, destinations));
        }
        i = i + 1;
    }
    assert(all.take(i as int) =~= all);
    let ghost rows = placements.deep_view();
    assert(rows + Seq::<PlacementView>::empty() =~= rows);
    if !by_link {
        let ghost unbound = probes.deep_view();
        let ghost made = |probe: ProbeView| probe_placement(collection@, probe);
        let mut k: usize = 0;
        assert(rows + unbound.take(0).map_values(made) =~= rows);
        while k < probes.len()
            invariant
                k <= probes.len(),
                unbound == probes.deep_view(),
                made == (|probe: ProbeView| probe_placement(collection@, probe)),
                placements.deep_view() == rows + unbound.take(k as int).map_values(made),
            decreases probes.len() - k,
        {
            let placement = PimdirPlacement {
                collection: collection.clone(),
                handle: probes[k].handle.clone(),
                link_id: None,
                object: None,
                level: PimdirLevel::Probed,
                summary: None,
                sort_key: PimdirSortKey(String::new()),
                flags: probes[k].flags.clone(),
                status: PimdirStatus::Clean,
                conflict_revision: None,
                conflict_object: None,
                base: None,
                origin: None,
            };
            assert(placement@ =~= probe_placement(collection@, unbound[k as int]));
            push_to(&mut placements, placement);
            assert(placements.deep_view() =~= rows + unbound.take(k + 1).map_values(made));
            k = k + 1;
        }
        assert(unbound.take(k as int) =~= unbound);
    }
    PimdirLoaded { placements, checkpoint }
}

/// A load by link ids yields only rows the source holds: no probe, and no
/// copy the hub offers.
pub proof fn lemma_a_load_by_links_yields_what_the_source_holds(
    hub: HubView,
    collection: Text,
    source: Text,
    links: Seq<Text>,
    origins: Map<Text, OriginView>,
    destinations: Map<Text, Text>,
    probes: Seq<ProbeView>,
    checkpoint: Option<Seq<u8>>,
    i: int,
)
    requires
        0 <= i < loaded(
            hub,
            collection,
            source,
            LoadScopeView::Links(links),
            origins,
            destinations,
            probes,
            checkpoint,
        ).placements.len(),
    ensures
        held_by(
            hub.items,
            source,
            loaded(
                hub,
                collection,
                source,
                LoadScopeView::Links(links),
                origins,
                destinations,
                probes,
                checkpoint,
            ).placements[i],
        ),
{
    lemma_yielded_rows_are_held(
        hub.items,
        source,
        origins,
        destinations,
        projection(hub.items, collection, source, in_order(hub.items.dom())),
        i,
    );
}

proof fn lemma_yielded_rows_are_held(
    items: Map<Text, HubItemView>,
    source: Text,
    origins: Map<Text, OriginView>,
    destinations: Map<Text, Text>,
    projected: Seq<PlacementView>,
    i: int,
)
    requires
        0 <= i < yielded(items, source, true, origins, destinations, projected).len(),
    ensures
        held_by(
            items,
            source,
            yielded(items, source, true, origins, destinations, projected)[i],
        ),
    decreases projected.len(),
{
    let rest = projected.drop_last();
    let before = yielded(items, source, true, origins, destinations, rest);
    if i < before.len() {
        lemma_yielded_rows_are_held(items, source, origins, destinations, rest, i);
    }
}

/// The body each listed link id holds, the last one told.
pub open spec fn bodies_of(rows: Seq<(Text, Text)>) -> Map<Text, Text>
    decreases rows.len(),
{
    if rows.len() == 0 {
        Map::empty()
    } else {
        bodies_of(rows.drop_last()).insert(rows.last().0, rows.last().1)
    }
}

/// Collects which link ids already hold a body.
pub fn lookup_objects(rows: &Vec<(PimdirLinkId, PimdirHash)>) -> (bodies: TextMap<PimdirHash>)
    ensures
        bodies@ == bodies_of(rows.deep_view()),
{
    let mut bodies: TextMap<PimdirHash> = TextMap::new();
    let ghost all = rows.deep_view();
    let mut i: usize = 0;
    while i < rows.len()
        invariant
            i <= rows.len(),
            all == rows.deep_view(),
            bodies@ == bodies_of(all.take(i as int)),
        decreases rows.len() - i,
    {
        proof {
            assert(all.take(i + 1).drop_last() =~= all.take(i as int));
            assert(all.take(i + 1).last() == all[i as int]);
        }
        bodies.insert(rows[i].0.0.clone(), rows[i].1.clone());
        i = i + 1;
    }
    assert(all.take(i as int) =~= all);
    bodies
}

/// A loaded create tells where its body already lives and a loaded
/// tombstone where the item went, under its own handle; no other placement
/// tells either, and nothing else of a placement changes.
pub proof fn lemma_a_placement_tells_its_whereabouts(
    placement: PlacementView,
    origins: Map<Text, OriginView>,
    destinations: Map<Text, Text>,
    link: Text,
)
    requires
        placement.link_id == Some(link),
    ensures
        ({
            let told = with_whereabouts(placement, origins, destinations);
            let created = placement.status == PimdirStatus::Created;
            let gone = placement.status == PimdirStatus::Tombstone;
            &&& created && origins.dom().contains(link) ==> told.origin == Some(origins[link])
            &&& gone && destinations.dom().contains(link) ==> (told.origin matches Some(origin)
                && origin.collection == destinations[link] && origin.handle == placement.handle)
            &&& created && !origins.dom().contains(link) ==> told.origin is None
            &&& gone && !destinations.dom().contains(link) ==> told.origin is None
            &&& !created && !gone ==> told.origin is None
            &&& told == (PlacementView { origin: told.origin, ..placement })
        }),
{
}

proof fn lemma_yielded_keeps(
    items: Map<Text, HubItemView>,
    source: Text,
    bound_only: bool,
    origins: Map<Text, OriginView>,
    destinations: Map<Text, Text>,
    projected: Seq<PlacementView>,
    i: int,
)
    requires
        0 <= i < projected.len(),
        bound_only ==> held_by(items, source, projected[i]),
    ensures
        yielded(items, source, bound_only, origins, destinations, projected).contains(
            with_whereabouts(projected[i], origins, destinations),
        ),
    decreases projected.len(),
{
    let rest = projected.drop_last();
    let before = yielded(items, source, bound_only, origins, destinations, rest);
    let all = yielded(items, source, bound_only, origins, destinations, projected);
    let row = with_whereabouts(projected[i], origins, destinations);
    if i < projected.len() - 1 {
        lemma_yielded_keeps(items, source, bound_only, origins, destinations, rest, i);
        assert(rest[i] == projected[i]);
        let k = choose|k: int| 0 <= k < before.len() && before[k] == row;
        assert(all[k] == row);
    } else {
        assert(all[all.len() - 1] == row);
    }
}

/// A load of everything yields each placement of the hub and each probe of
/// the source, and a load by link ids each placement the source holds; the
/// checkpoint is handed on as stored.
pub proof fn lemma_a_load_leaves_nothing_out(
    hub: HubView,
    collection: Text,
    source: Text,
    scope: LoadScopeView,
    origins: Map<Text, OriginView>,
    destinations: Map<Text, Text>,
    probes: Seq<ProbeView>,
    checkpoint: Option<Seq<u8>>,
    i: int,
    k: int,
)
    ensures
        ({
            let all = loaded(
                hub,
                collection,
                source,
                scope,
                origins,
                destinations,
                probes,
                checkpoint,
            );
            let projected = projection(hub.items, collection, source, in_order(hub.items.dom()));
            &&& all.checkpoint == checkpoint
            &&& 0 <= i < projected.len() && (scope is Links ==> held_by(
                hub.items,
                source,
                projected[i],
            )) ==> all.placements.contains(
                with_whereabouts(projected[i], origins, destinations),
            )
            &&& 0 <= k < probes.len() && !(scope is Links) ==> (exists|n: int|
                0 <= n < all.placements.len() && (#[trigger] all.placements[n]).handle
                    == probes[k].handle && all.placements[n].flags == probes[k].flags
                    && all.placements[n].collection == collection && all.placements[n].link_id
                    is None && all.placements[n].level == PimdirLevel::Probed
                    && all.placements[n].status == PimdirStatus::Clean)
        }),
{
    let all = loaded(hub, collection, source, scope, origins, destinations, probes, checkpoint);
    let projected = projection(hub.items, collection, source, in_order(hub.items.dom()));
    let first = yielded(hub.items, source, scope is Links, origins, destinations, projected);
    if 0 <= i < projected.len() && (scope is Links ==> held_by(hub.items, source, projected[i])) {
        lemma_yielded_keeps(
            hub.items,
            source,
            scope is Links,
            origins,
            destinations,
            projected,
            i,
        );
        let row = with_whereabouts(projected[i], origins, destinations);
        let n = choose|n: int| 0 <= n < first.len() && first[n] == row;
        assert(all.placements[n] == row);
    }
    if 0 <= k < probes.len() && !(scope is Links) {
        assert(all.placements[first.len() + k] == probe_placement(collection, probes[k]));
    }
}

/// A stored policy is read by its spelling, and one that is not there, or
/// is none of the store's, leaves every dispute to the reader.
pub proof fn lemma_a_policy_is_read_by_its_spelling(text: Text)
    ensures
        policy_of(None) == PimdirHubConflict::Manual,
        policy_of(Some(conflict_text(PimdirHubConflict::PreferIncoming)))
            == PimdirHubConflict::PreferIncoming,
        policy_of(Some(conflict_text(PimdirHubConflict::PreferExisting)))
            == PimdirHubConflict::PreferExisting,
        policy_of(Some(conflict_text(PimdirHubConflict::Manual))) == PimdirHubConflict::Manual,
        policy_of(Some(text)) != PimdirHubConflict::Manual ==> text == conflict_text(
            policy_of(Some(text)),
        ),
{
    lemma_a_policy_is_its_spelling(
        PimdirHubConflict::PreferIncoming,
        PimdirHubConflict::PreferExisting,
    );
    lemma_a_policy_is_its_spelling(PimdirHubConflict::PreferIncoming, PimdirHubConflict::Manual);
    lemma_a_policy_is_its_spelling(PimdirHubConflict::PreferExisting, PimdirHubConflict::Manual);
}

/// A lookup tells the body of each link id it found, and of no other.
pub proof fn lemma_a_lookup_tells_what_was_found(rows: Seq<(Text, Text)>, link: Text)
    ensures
        bodies_of(rows).dom().contains(link) <==> exists|i: int|
            0 <= i < rows.len() && (#[trigger] rows[i]).0 == link,
        bodies_of(rows).dom().contains(link) ==> exists|i: int|
            0 <= i < rows.len() && (#[trigger] rows[i]).0 == link && rows[i].1 == bodies_of(
                rows,
            )[link],
    decreases rows.len(),
{
    if rows.len() > 0 {
        let rest = rows.drop_last();
        let last = rows.len() - 1;
        lemma_a_lookup_tells_what_was_found(rest, link);
        assert(rows.last() == rows[last]);
        if bodies_of(rest).dom().contains(link) {
            let i = choose|i: int|
                0 <= i < rest.len() && (#[trigger] rest[i]).0 == link && rest[i].1 == bodies_of(
                    rest,
                )[link];
            assert(rest[i] == rows[i]);
        }
        if exists|i: int| 0 <= i < rows.len() && (#[trigger] rows[i]).0 == link {
            let i = choose|i: int| 0 <= i < rows.len() && (#[trigger] rows[i]).0 == link;
            if i < last {
                assert(rest[i] == rows[i]);
            }
        }
    }
}

} // verus!

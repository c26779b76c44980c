//! # The tables
//!
//! What the rows of one item come to as planned row operations run, and that
//! saving a hub leaves the tables holding that hub: what a write folded in is
//! what the next read tells.

use crate::change::WriteOpView;
use crate::client::load::{people_rows, AddressRowView};
use crate::client::rows::{
    columns_of, row_of_binding, row_of_item, table_of, BindingRowView, ItemRowView,
    PimdirSummaryTable, ValueView,
};
use crate::client::write::{
    address_rows, admitted, all_item_rows, all_releases, at_most_one, binding_rows_of,
    bindings_rows, bound_rows, delta_rows, diff_rows, hub_refs, inserted, item_at, item_rows,
    old_summary_rows, refcount_rows, released, releases, retention_rows, same_columns, settled,
    summary_rows, unbound, unpinned, RowOpView,
};
use crate::hub::{absorbed, HubItemView, HubView};
use crate::summary::{AddressView, PimdirAddressRole, SummaryView};
use crate::text::{text_lt, Text};
use crate::text_map::{ascending, in_order, lemma_ascending_distinct, lemma_order_of_finite};
use vstd::prelude::*;

verus! {

/// The rows the tables hold of one item of a collection.
#[verifier::ext_equal]
pub struct ItemTables {
    /// Its own row, live or retained.
    pub row: Option<ItemRowView>,
    /// Whether that row is live.
    pub live: bool,
    /// Its bindings, by source.
    pub bindings: Map<Text, BindingRowView>,
    /// Its summary rows, by table.
    pub summaries: Map<PimdirSummaryTable, Seq<ValueView>>,
    /// Its address rows, in order.
    pub addresses: Seq<AddressRowView>,
}

impl ItemTables {
    /// The row a read yields: the live one.
    pub open spec fn live_row(self) -> Option<ItemRowView> {
        if self.live {
            self.row
        } else {
            None
        }
    }
}

/// The tables of an item nothing was ever stored of.
pub open spec fn no_rows() -> ItemTables {
    ItemTables {
        row: None,
        live: false,
        bindings: Map::empty(),
        summaries: Map::empty(),
        addresses: Seq::empty(),
    }
}

/// The binding rows of an item, by source.
pub open spec fn bindings_held(link: Text, item: HubItemView) -> Map<Text, BindingRowView> {
    Map::new(
        |source: Text| item.sources.dom().contains(source),
        |source: Text| row_of_binding(link, source, item.sources[source]),
    )
}

/// The summary row of an item, by its table.
pub open spec fn summaries_held(summary: Option<SummaryView>) -> Map<
    PimdirSummaryTable,
    Seq<ValueView>,
> {
    match summary {
        Some(summary) => Map::empty().insert(table_of(summary), columns_of(summary)),
        None => Map::empty(),
    }
}

/// The address rows of an item.
pub open spec fn addresses_held(link: Text, summary: Option<SummaryView>) -> Seq<AddressRowView> {
    match summary {
        Some(summary) => people_rows(link, summary.addresses()),
        None => Seq::empty(),
    }
}

/// The tables that hold an item.
pub open spec fn tables_holding(link: Text, item: HubItemView) -> ItemTables {
    ItemTables {
        row: Some(row_of_item(link, item)),
        live: true,
        bindings: bindings_held(link, item),
        summaries: summaries_held(item.summary),
        addresses: addresses_held(link, item.summary),
    }
}

/// The tables a hub's item starts from: its own, or none.
pub open spec fn tables_before(items: Map<Text, HubItemView>, link: Text) -> ItemTables {
    match item_at(items, link) {
        Some(item) => tables_holding(link, item),
        None => no_rows(),
    }
}

/// Bindings with some more rows.
pub open spec fn bound_all(
    bindings: Map<Text, BindingRowView>,
    rows: Seq<BindingRowView>,
) -> Map<Text, BindingRowView>
    decreases rows.len(),
{
    if rows.len() == 0 {
        bindings
    } else {
        bound_all(bindings, rows.drop_last()).insert(rows.last().source, rows.last())
    }
}

/// The item a row operation is about, by its collection and its key.
pub open spec fn subject(op: RowOpView) -> Option<(Text, Text)> {
    match op {
        RowOpView::AdmitItem { collection, row, .. } => Some((collection, row.link_id)),
        RowOpView::InsertItem { collection, row, .. } => Some((collection, row.link_id)),
        RowOpView::ReviveItem { collection, link_id } => Some((collection, link_id)),
        RowOpView::UpdateItem { collection, row } => Some((collection, row.link_id)),
        RowOpView::StampItem { collection, link_id } => Some((collection, link_id)),
        RowOpView::InsertBinding { collection, row } => Some((collection, row.link_id)),
        RowOpView::UpdateBinding { collection, row } => Some((collection, row.link_id)),
        RowOpView::DeleteBinding { collection, link_id, .. } => Some((collection, link_id)),
        RowOpView::DeleteItemBindings { collection, link_id } => Some((collection, link_id)),
        RowOpView::RetainItem { collection, link_id, .. } => Some((collection, link_id)),
        RowOpView::PurgeIfHeldElsewhere { collection, link_id } => Some((collection, link_id)),
        RowOpView::DeleteSummary { collection, link_id, .. } => Some((collection, link_id)),
        RowOpView::ReplaceAddresses { collection, link_id } => Some((collection, link_id)),
        RowOpView::UpsertSummary { collection, link_id, .. } => Some((collection, link_id)),
        RowOpView::InsertAddress { collection, link_id, .. } => Some((collection, link_id)),
        _ => None,
    }
}

/// The tables of an item after a row operation about it. An update leaves a
/// binding's handle, and where there is no row it updates none; a purge
/// takes a retained row, which is live no more.
pub open spec fn moved(tables: ItemTables, op: RowOpView) -> ItemTables {
    match op {
        RowOpView::AdmitItem { row, bindings, .. } => ItemTables {
            row: Some(row),
            live: true,
            bindings: bound_all(tables.bindings, bindings),
            ..tables
        },
        RowOpView::InsertItem { row, .. } => ItemTables { row: Some(row), live: true, ..tables },
        RowOpView::ReviveItem { .. } => ItemTables { live: true, ..tables },
        RowOpView::UpdateItem { row, .. } => ItemTables {
            row: if tables.row is Some {
                Some(row)
            } else {
                None
            },
            ..tables
        },
        RowOpView::InsertBinding { row, .. } => ItemTables {
            bindings: tables.bindings.insert(row.source, row),
            ..tables
        },
        RowOpView::UpdateBinding { row, .. } => ItemTables {
            bindings: if tables.bindings.dom().contains(row.source) {
                tables.bindings.insert(
                    row.source,
                    BindingRowView { handle: tables.bindings[row.source].handle, ..row },
                )
            } else {
                tables.bindings
            },
            ..tables
        },
        RowOpView::DeleteBinding { source, .. } => ItemTables {
            bindings: tables.bindings.remove(source),
            ..tables
        },
        RowOpView::DeleteItemBindings { .. } => ItemTables { bindings: Map::empty(), ..tables },
        RowOpView::RetainItem { .. } => ItemTables { live: false, ..tables },
        RowOpView::DeleteSummary { table, .. } => ItemTables {
            summaries: tables.summaries.remove(table),
            ..tables
        },
        RowOpView::ReplaceAddresses { .. } => ItemTables { addresses: Seq::empty(), ..tables },
        RowOpView::UpsertSummary { table, columns, .. } => ItemTables {
            summaries: tables.summaries.insert(table, columns),
            ..tables
        },
        RowOpView::InsertAddress { link_id, role, address, name, .. } => ItemTables {
            addresses: tables.addresses.push(AddressRowView { link_id, role, address, name }),
            ..tables
        },
        _ => tables,
    }
}

/// The tables of an item of a collection after row operations, in order:
/// those about it move them, the others leave them.
pub open spec fn after_rows(
    tables: ItemTables,
    collection: Text,
    link: Text,
    rows: Seq<RowOpView>,
) -> ItemTables
    decreases rows.len(),
{
    if rows.len() == 0 {
        tables
    } else {
        let held = after_rows(tables, collection, link, rows.drop_last());
        if subject(rows.last()) == Some((collection, link)) {
            moved(held, rows.last())
        } else {
            held
        }
    }
}

/// Whether a change leaves an item out of the live ones: nothing binds it
/// any more, or nothing ever did.
pub open spec fn retired(before: Option<HubItemView>, after: HubItemView) -> bool {
    unbound(after) && (before matches Some(held) ==> !unbound(held))
}

/// Whether a summary's old row may leave its item: a mail or a contact row
/// never does, so it is only ever written over.
pub open spec fn row_may_leave(before: Option<SummaryView>, after: Option<SummaryView>) -> bool {
    before matches Some(gone) ==> (gone is Mail || gone is Contact) ==> (after matches Some(kept)
        && table_of(kept) == table_of(gone))
}

proof fn lemma_rows_join(
    tables: ItemTables,
    collection: Text,
    link: Text,
    a: Seq<RowOpView>,
    b: Seq<RowOpView>,
)
    ensures
        after_rows(tables, collection, link, a + b) == after_rows(
            after_rows(tables, collection, link, a),
            collection,
            link,
            b,
        ),
    decreases b.len(),
{
    if b.len() == 0 {
        assert(a + b =~= a);
    } else {
        assert((a + b).drop_last() =~= a + b.drop_last());
        assert((a + b).last() == b.last());
        lemma_rows_join(tables, collection, link, a, b.drop_last());
    }
}

/// Whether no row operation is about an item.
spec fn foreign(collection: Text, link: Text, rows: Seq<RowOpView>) -> bool {
    forall|i: int| 0 <= i < rows.len() ==> subject(#[trigger] rows[i]) != Some((collection, link))
}

proof fn lemma_foreign_rows(
    tables: ItemTables,
    collection: Text,
    link: Text,
    rows: Seq<RowOpView>,
)
    requires
        foreign(collection, link, rows),
    ensures
        after_rows(tables, collection, link, rows) == tables,
    decreases rows.len(),
{
    if rows.len() > 0 {
        let rest = rows.drop_last();
        assert forall|i: int| 0 <= i < rest.len() implies subject(#[trigger] rest[i]) != Some(
            (collection, link),
        ) by {
            assert(rest[i] == rows[i]);
        }
        lemma_foreign_rows(tables, collection, link, rest);
        assert(subject(rows[rows.len() - 1]) != Some((collection, link)));
    }
}

proof fn lemma_foreign_joins(collection: Text, link: Text, a: Seq<RowOpView>, b: Seq<RowOpView>)
    requires
        foreign(collection, link, a),
        foreign(collection, link, b),
    ensures
        foreign(collection, link, a + b),
{
    let all = a + b;
    assert forall|i: int| 0 <= i < all.len() implies subject(#[trigger] all[i]) != Some(
        (collection, link),
    ) by {
        if i < a.len() {
            assert(all[i] == a[i]);
        } else {
            assert(all[i] == b[i - a.len()]);
        }
    }
}

proof fn lemma_addresses_run(
    tables: ItemTables,
    collection: Text,
    link: Text,
    list: Seq<(PimdirAddressRole, AddressView)>,
)
    ensures
        after_rows(tables, collection, link, address_rows(collection, link, list)) == (ItemTables {
            addresses: tables.addresses + people_rows(link, list),
            ..tables
        }),
    decreases list.len(),
{
    if list.len() == 0 {
        assert(tables.addresses + people_rows(link, list) =~= tables.addresses);
    } else {
        let rest = list.drop_last();
        let rows = address_rows(collection, link, rest);
        lemma_addresses_run(tables, collection, link, rest);
        assert(address_rows(collection, link, list).drop_last() =~= rows);
        assert(people_rows(link, list) =~= people_rows(link, rest).push(
            people_rows(link, list)[list.len() - 1],
        ));
        assert((tables.addresses + people_rows(link, list)) =~= (tables.addresses + people_rows(
            link,
            rest,
        )).push(people_rows(link, list)[list.len() - 1]));
    }
}

proof fn lemma_one_row(tables: ItemTables, collection: Text, link: Text, op: RowOpView)
    requires
        subject(op) == Some((collection, link)),
    ensures
        after_rows(tables, collection, link, seq![op]) == moved(tables, op),
{
    assert(seq![op].drop_last() =~= Seq::empty());
    assert(after_rows(tables, collection, link, Seq::empty()) == tables);
}

proof fn lemma_summary_run(
    tables: ItemTables,
    collection: Text,
    link: Text,
    before: Option<SummaryView>,
    after: Option<SummaryView>,
)
    requires
        tables.summaries == summaries_held(before),
        tables.addresses == addresses_held(link, before),
        row_may_leave(before, after),
    ensures
        after_rows(tables, collection, link, summary_rows(collection, link, before, after)) == (
        ItemTables {
            summaries: summaries_held(after),
            addresses: addresses_held(link, after),
            ..tables
        }),
{
    if before != after {
        let gone = old_summary_rows(collection, link, before, after);
        let wiped = seq![RowOpView::ReplaceAddresses { collection, link_id: link }];
        let t1 = after_rows(tables, collection, link, gone);
        let t2 = after_rows(t1, collection, link, wiped);
        if gone.len() > 0 {
            lemma_one_row(tables, collection, link, gone[0]);
            assert(gone =~= seq![gone[0]]);
        }
        lemma_one_row(t1, collection, link, wiped[0]);
        assert(wiped =~= seq![wiped[0]]);
        lemma_rows_join(tables, collection, link, gone, wiped);
        match after {
            Some(summary) => {
                let upsert = seq![
                    RowOpView::UpsertSummary {
                        collection,
                        link_id: link,
                        table: table_of(summary),
                        columns: columns_of(summary),
                    },
                ];
                let people = address_rows(collection, link, summary.addresses());
                lemma_rows_join(tables, collection, link, gone + wiped, upsert + people);
                lemma_rows_join(t2, collection, link, upsert, people);
                lemma_one_row(t2, collection, link, upsert[0]);
                assert(upsert =~= seq![upsert[0]]);
                let t3 = moved(t2, upsert[0]);
                lemma_addresses_run(t3, collection, link, summary.addresses());
                assert(Seq::<AddressRowView>::empty() + people_rows(link, summary.addresses())
                    =~= people_rows(link, summary.addresses()));
                assert(t3.summaries =~= summaries_held(after));
            },
            None => {
                assert(gone + wiped + Seq::<RowOpView>::empty() =~= gone + wiped);
                assert(t2.summaries =~= summaries_held(after));
            },
        }
    }
}

/// Whether a source's binding leaves before the items are written: the
/// source binds the item no more, or under another handle.
spec fn leaves(before: HubItemView, after: HubItemView, source: Text) -> bool {
    !after.sources.dom().contains(source) || after.sources[source].handle
        != before.sources[source].handle
}

/// The bindings of an item once those of some sources were released.
spec fn bindings_left(
    link: Text,
    before: HubItemView,
    after: HubItemView,
    sources: Seq<Text>,
) -> Map<Text, BindingRowView> {
    Map::new(
        |source: Text|
            before.sources.dom().contains(source) && !(sources.contains(source) && leaves(
                before,
                after,
                source,
            )),
        |source: Text| row_of_binding(link, source, before.sources[source]),
    )
}

/// Whether every binding of some sources that moved had a licence to.
spec fn moves_licensed(
    before: HubItemView,
    after: HubItemView,
    licensed: Set<Text>,
    sources: Seq<Text>,
) -> bool {
    forall|source: Text| #[trigger]
        sources.contains(source) && after.sources.dom().contains(source)
            && after.sources[source].handle != before.sources[source].handle ==> licensed.contains(
            before.sources[source].handle,
        )
}

proof fn lemma_contains_last(list: Seq<Text>)
    requires
        list.len() > 0,
    ensures
        forall|item: Text| #[trigger]
            list.contains(item) == (list.drop_last().contains(item) || item == list.last()),
{
    let rest = list.drop_last();
    assert forall|item: Text| #[trigger] list.contains(item) == (rest.contains(item) || item
        == list.last()) by {
        if rest.contains(item) {
            let k = rest.index_of(item);
            assert(list[k] == item);
        }
        assert(list[list.len() - 1] == list.last());
        if list.contains(item) && item != list.last() {
            let k = list.index_of(item);
            assert(rest[k] == item);
        }
    }
}

proof fn lemma_releases_run(
    tables: ItemTables,
    collection: Text,
    link: Text,
    before: HubItemView,
    after: HubItemView,
    licensed: Set<Text>,
    sources: Seq<Text>,
)
    requires
        releases(collection, link, before, after, licensed, sources) is Ok,
        tables.bindings == bindings_held(link, before),
    ensures
        after_rows(
            tables,
            collection,
            link,
            releases(collection, link, before, after, licensed, sources)->Ok_0,
        ) == (ItemTables { bindings: bindings_left(link, before, after, sources), ..tables }),
        moves_licensed(before, after, licensed, sources),
    decreases sources.len(),
{
    if sources.len() == 0 {
        assert(bindings_left(link, before, after, sources) =~= tables.bindings);
    } else {
        let rest = sources.drop_last();
        let source = sources.last();
        lemma_releases_run(tables, collection, link, before, after, licensed, rest);
        lemma_contains_last(sources);
        let rows = releases(collection, link, before, after, licensed, rest)->Ok_0;
        let more = released(collection, link, before, after, licensed, source)->Ok_0;
        lemma_rows_join(tables, collection, link, rows, more);
        let held = after_rows(tables, collection, link, rows);
        if more.len() > 0 {
            lemma_one_row(held, collection, link, more[0]);
            assert(more =~= seq![more[0]]);
        }
        assert(after_rows(held, collection, link, more).bindings =~= bindings_left(
            link,
            before,
            after,
            sources,
        ));
    }
}

proof fn lemma_releases_foreign(
    collection: Text,
    other: Text,
    before: HubItemView,
    after: HubItemView,
    licensed: Set<Text>,
    sources: Seq<Text>,
    link: Text,
)
    requires
        other != link,
        releases(collection, other, before, after, licensed, sources) is Ok,
    ensures
        foreign(
            collection,
            link,
            releases(collection, other, before, after, licensed, sources)->Ok_0,
        ),
    decreases sources.len(),
{
    if sources.len() > 0 {
        let rest = sources.drop_last();
        lemma_releases_foreign(collection, other, before, after, licensed, rest, link);
        lemma_foreign_joins(
            collection,
            link,
            releases(collection, other, before, after, licensed, rest)->Ok_0,
            released(collection, other, before, after, licensed, sources.last())->Ok_0,
        );
    }
}

proof fn lemma_ascending_rest(list: Seq<Text>)
    requires
        ascending(list),
        list.len() > 0,
    ensures
        ascending(list.drop_last()),
        !list.drop_last().contains(list.last()),
{
    let rest = list.drop_last();
    assert forall|i: int, j: int| 0 <= i < j < rest.len() implies text_lt(
        #[trigger] rest[i],
        #[trigger] rest[j],
    ) by {
        assert(rest[i] == list[i] && rest[j] == list[j]);
    }
    if rest.contains(list.last()) {
        let k = rest.index_of(list.last());
        assert(list[k] == list[list.len() - 1]);
        lemma_ascending_distinct(list, k, list.len() - 1);
    }
}

proof fn lemma_all_releases_run(
    tables: ItemTables,
    collection: Text,
    before: Map<Text, HubItemView>,
    after: Map<Text, HubItemView>,
    licensed: Set<Text>,
    links: Seq<Text>,
    link: Text,
)
    requires
        all_releases(collection, before, after, licensed, links) is Ok,
        ascending(links),
        before.dom().contains(link) ==> tables.bindings == bindings_held(link, before[link]),
    ensures
        ({
            let rows = all_releases(collection, before, after, licensed, links)->Ok_0;
            let held = after_rows(tables, collection, link, rows);
            if links.contains(link) && before.dom().contains(link) {
                let sources = in_order(before[link].sources.dom());
                &&& held == (ItemTables {
                    bindings: bindings_left(link, before[link], after[link], sources),
                    ..tables
                })
                &&& moves_licensed(before[link], after[link], licensed, sources)
            } else {
                held == tables
            }
        }),
    decreases links.len(),
{
    if links.len() > 0 {
        let rest = links.drop_last();
        let other = links.last();
        lemma_ascending_rest(links);
        lemma_contains_last(links);
        lemma_all_releases_run(tables, collection, before, after, licensed, rest, link);
        if before.dom().contains(other) {
            let rows = all_releases(collection, before, after, licensed, rest)->Ok_0;
            let sources = in_order(before[other].sources.dom());
            let more = releases(
                collection,
                other,
                before[other],
                after[other],
                licensed,
                sources,
            )->Ok_0;
            lemma_rows_join(tables, collection, link, rows, more);
            let held = after_rows(tables, collection, link, rows);
            if other == link {
                lemma_releases_run(
                    held,
                    collection,
                    link,
                    before[link],
                    after[link],
                    licensed,
                    sources,
                );
            } else {
                lemma_releases_foreign(
                    collection,
                    other,
                    before[other],
                    after[other],
                    licensed,
                    sources,
                    link,
                );
                lemma_foreign_rows(held, collection, link, more);
            }
        }
    }
}

/// The bindings of an item once those of some sources were written.
spec fn bindings_written(
    link: Text,
    after: HubItemView,
    kept: Map<Text, BindingRowView>,
    sources: Seq<Text>,
) -> Map<Text, BindingRowView> {
    Map::new(
        |source: Text| sources.contains(source) || kept.dom().contains(source),
        |source: Text|
            if sources.contains(source) {
                row_of_binding(link, source, after.sources[source])
            } else {
                kept[source]
            },
    )
}

proof fn lemma_bindings_run(
    tables: ItemTables,
    collection: Text,
    link: Text,
    before: HubItemView,
    after: HubItemView,
    licensed: Set<Text>,
    held: Seq<Text>,
    sources: Seq<Text>,
)
    requires
        forall|source: Text| #[trigger]
            held.contains(source) == before.sources.dom().contains(source),
        tables.bindings == bindings_left(link, before, after, held),
        moves_licensed(before, after, licensed, held),
        forall|i: int| 0 <= i < sources.len() ==> after.sources.dom().contains(#[trigger] sources[i]),
    ensures
        after_rows(
            tables,
            collection,
            link,
            bindings_rows(collection, link, before, after, licensed, sources),
        ) == (ItemTables {
            bindings: bindings_written(link, after, tables.bindings, sources),
            ..tables
        }),
    decreases sources.len(),
{
    if sources.len() == 0 {
        assert(bindings_written(link, after, tables.bindings, sources) =~= tables.bindings);
    } else {
        let rest = sources.drop_last();
        let source = sources.last();
        assert forall|i: int| 0 <= i < rest.len() implies after.sources.dom().contains(
            #[trigger] rest[i],
        ) by {
            assert(rest[i] == sources[i]);
        }
        assert(after.sources.dom().contains(sources[sources.len() - 1]));
        lemma_bindings_run(tables, collection, link, before, after, licensed, held, rest);
        lemma_contains_last(sources);
        let rows = bindings_rows(collection, link, before, after, licensed, rest);
        let more = bound_rows(collection, link, before, after, licensed, source);
        lemma_rows_join(tables, collection, link, rows, more);
        let written = after_rows(tables, collection, link, rows);
        if more.len() > 0 {
            lemma_one_row(written, collection, link, more[0]);
            assert(more =~= seq![more[0]]);
        }
        assert(held.contains(source) == before.sources.dom().contains(source));
        assert(after_rows(written, collection, link, more).bindings =~= bindings_written(
            link,
            after,
            tables.bindings,
            sources,
        ));
    }
}

proof fn lemma_admitted_bindings(
    link: Text,
    item: HubItemView,
    bindings: Map<Text, BindingRowView>,
    sources: Seq<Text>,
)
    ensures
        bound_all(bindings, binding_rows_of(link, item.sources, sources)) == bindings_written(
            link,
            item,
            bindings,
            sources,
        ),
    decreases sources.len(),
{
    if sources.len() == 0 {
        assert(bindings_written(link, item, bindings, sources) =~= bindings);
    } else {
        lemma_admitted_bindings(link, item, bindings, sources.drop_last());
        lemma_contains_last(sources);
        let rows = binding_rows_of(link, item.sources, sources);
        assert(rows.drop_last() =~= binding_rows_of(link, item.sources, sources.drop_last()));
        assert(bound_all(bindings, rows) =~= bindings_written(link, item, bindings, sources));
    }
}

proof fn lemma_members(set: Set<Text>)
    requires
        set.finite(),
    ensures
        forall|text: Text| #[trigger] in_order(set).contains(text) == set.contains(text),
        forall|i: int| 0 <= i < in_order(set).len() ==> set.contains(#[trigger] in_order(set)[i]),
        ascending(in_order(set)),
{
    let list = in_order(set);
    lemma_order_of_finite(set);
    assert forall|text: Text| #[trigger] list.contains(text) == set.contains(text) by {
        assert(list.to_set().contains(text) == list.contains(text));
    }
    assert forall|i: int| 0 <= i < list.len() implies set.contains(#[trigger] list[i]) by {
        assert(list.contains(list[i]));
    }
}

/// One item's rows carry its tables from what held it, its releases done, to
/// what holds it changed.
proof fn lemma_item_run(
    tables: ItemTables,
    collection: Text,
    source: Text,
    link: Text,
    before: Option<HubItemView>,
    after: HubItemView,
    licensed: Set<Text>,
)
    requires
        after.sources.dom().finite(),
        match before {
            Some(held) => {
                let sources = in_order(held.sources.dom());
                &&& held.sources.dom().finite()
                &&& row_may_leave(held.summary, after.summary)
                &&& moves_licensed(held, after, licensed, sources)
                &&& tables == (ItemTables {
                    bindings: bindings_left(link, held, after, sources),
                    ..tables_holding(link, held)
                })
            },
            None => tables == no_rows(),
        },
    ensures
        ({
            let rows = item_rows(collection, source, link, before, after, licensed);
            let held = after_rows(tables, collection, link, rows);
            if retired(before, after) {
                held.live_row() is None && held.bindings == Map::<Text, BindingRowView>::empty()
            } else {
                held == tables_holding(link, after)
            }
        }),
{
    let sources = in_order(after.sources.dom());
    lemma_members(after.sources.dom());
    match before {
        None => {
            if !unbound(after) {
                let entry = seq![
                    RowOpView::AdmitItem {
                        collection,
                        row: row_of_item(link, after),
                        bindings: binding_rows_of(link, after.sources, sources),
                    },
                ];
                let summary = summary_rows(collection, link, None, after.summary);
                lemma_rows_join(tables, collection, link, entry, summary);
                lemma_one_row(tables, collection, link, entry[0]);
                assert(entry =~= seq![entry[0]]);
                lemma_admitted_bindings(link, after, Map::empty(), sources);
                let t1 = moved(tables, entry[0]);
                assert(t1.bindings =~= bindings_held(link, after));
                lemma_summary_run(t1, collection, link, None, after.summary);
            }
        },
        Some(held) => {
            let moves = !same_columns(held, after);
            let update = if moves {
                seq![RowOpView::UpdateItem { collection, row: row_of_item(link, after) }]
            } else {
                Seq::empty()
            };
            let summary = summary_rows(collection, link, held.summary, after.summary);
            let stamp = if held.summary != after.summary && !moves {
                seq![
                    RowOpView::StampItem { collection, link_id: link },
                    RowOpView::BumpNextChange,
                ]
            } else {
                Seq::empty()
            };
            let bound = bindings_rows(collection, link, held, after, licensed, sources);
            let kept = if unbound(after) && !unbound(held) {
                retention_rows(collection, link, source)
            } else {
                Seq::empty()
            };
            lemma_rows_join(tables, collection, link, update + summary + stamp + bound, kept);
            lemma_rows_join(tables, collection, link, update + summary + stamp, bound);
            lemma_rows_join(tables, collection, link, update + summary, stamp);
            lemma_rows_join(tables, collection, link, update, summary);
            let t1 = after_rows(tables, collection, link, update);
            if moves {
                lemma_one_row(tables, collection, link, update[0]);
                assert(update =~= seq![update[0]]);
            }
            assert(t1 == (ItemTables { row: Some(row_of_item(link, after)), ..tables }));
            lemma_summary_run(t1, collection, link, held.summary, after.summary);
            let t2 = after_rows(t1, collection, link, summary);
            let t3 = after_rows(t2, collection, link, stamp);
            if stamp.len() > 0 {
                assert(stamp.drop_last() =~= seq![stamp[0]]);
                lemma_one_row(t2, collection, link, stamp[0]);
            }
            assert(t3 == t2);
            lemma_members(held.sources.dom());
            lemma_bindings_run(
                t3,
                collection,
                link,
                held,
                after,
                licensed,
                in_order(held.sources.dom()),
                sources,
            );
            let t4 = after_rows(t3, collection, link, bound);
            assert(t4.bindings =~= bindings_held(link, after));
            assert(t4 == tables_holding(link, after));
            if kept.len() > 0 {
                let retain = RowOpView::RetainItem { collection, link_id: link, source };
                let unbind = RowOpView::DeleteItemBindings { collection, link_id: link };
                assert(kept.drop_last() =~= seq![retain, unbind]);
                assert(seq![retain, unbind].drop_last() =~= seq![retain]);
                lemma_one_row(t4, collection, link, retain);
                assert(after_rows(t4, collection, link, seq![retain, unbind]) == moved(
                    moved(t4, retain),
                    unbind,
                ));
            }
        },
    }
}

proof fn lemma_addresses_foreign(
    collection: Text,
    other: Text,
    list: Seq<(PimdirAddressRole, AddressView)>,
    link: Text,
)
    requires
        other != link,
    ensures
        foreign(collection, link, address_rows(collection, other, list)),
    decreases list.len(),
{
    if list.len() > 0 {
        let rest = address_rows(collection, other, list.drop_last());
        let rows = address_rows(collection, other, list);
        lemma_addresses_foreign(collection, other, list.drop_last(), link);
        lemma_foreign_joins(collection, link, rest, seq![rows.last()]);
        assert(rows =~= rest + seq![rows.last()]);
    }
}

proof fn lemma_bindings_foreign(
    collection: Text,
    other: Text,
    before: HubItemView,
    after: HubItemView,
    licensed: Set<Text>,
    sources: Seq<Text>,
    link: Text,
)
    requires
        other != link,
    ensures
        foreign(
            collection,
            link,
            bindings_rows(collection, other, before, after, licensed, sources),
        ),
    decreases sources.len(),
{
    if sources.len() > 0 {
        let rest = sources.drop_last();
        lemma_bindings_foreign(collection, other, before, after, licensed, rest, link);
        lemma_foreign_joins(
            collection,
            link,
            bindings_rows(collection, other, before, after, licensed, rest),
            bound_rows(collection, other, before, after, licensed, sources.last()),
        );
    }
}

proof fn lemma_summary_foreign(
    collection: Text,
    other: Text,
    before: Option<SummaryView>,
    after: Option<SummaryView>,
    link: Text,
)
    requires
        other != link,
    ensures
        foreign(collection, link, summary_rows(collection, other, before, after)),
{
    if before != after {
        let gone = old_summary_rows(collection, other, before, after);
        let wiped = seq![RowOpView::ReplaceAddresses { collection, link_id: other }];
        lemma_foreign_joins(collection, link, gone, wiped);
        if let Some(summary) = after {
            let upsert = seq![
                RowOpView::UpsertSummary {
                    collection,
                    link_id: other,
                    table: table_of(summary),
                    columns: columns_of(summary),
                },
            ];
            lemma_addresses_foreign(collection, other, summary.addresses(), link);
            lemma_foreign_joins(
                collection,
                link,
                upsert,
                address_rows(collection, other, summary.addresses()),
            );
            lemma_foreign_joins(
                collection,
                link,
                gone + wiped,
                upsert + address_rows(collection, other, summary.addresses()),
            );
        } else {
            lemma_foreign_joins(collection, link, gone + wiped, Seq::empty());
        }
    }
}

proof fn lemma_item_foreign(
    collection: Text,
    source: Text,
    other: Text,
    before: Option<HubItemView>,
    after: HubItemView,
    licensed: Set<Text>,
    link: Text,
)
    requires
        other != link,
    ensures
        foreign(
            collection,
            link,
            item_rows(collection, source, other, before, after, licensed),
        ),
{
    let sources = in_order(after.sources.dom());
    match before {
        None => {
            let entry = seq![
                RowOpView::AdmitItem {
                    collection,
                    row: row_of_item(other, after),
                    bindings: binding_rows_of(other, after.sources, sources),
                },
            ];
            lemma_summary_foreign(collection, other, None, after.summary, link);
            lemma_foreign_joins(
                collection,
                link,
                entry,
                summary_rows(collection, other, None, after.summary),
            );
        },
        Some(held) => {
            let moves = !same_columns(held, after);
            let update = if moves {
                seq![RowOpView::UpdateItem { collection, row: row_of_item(other, after) }]
            } else {
                Seq::empty()
            };
            let summary = summary_rows(collection, other, held.summary, after.summary);
            let stamp = if held.summary != after.summary && !moves {
                seq![
                    RowOpView::StampItem { collection, link_id: other },
                    RowOpView::BumpNextChange,
                ]
            } else {
                Seq::empty()
            };
            let bound = bindings_rows(collection, other, held, after, licensed, sources);
            let kept = if unbound(after) && !unbound(held) {
                retention_rows(collection, other, source)
            } else {
                Seq::empty()
            };
            lemma_summary_foreign(collection, other, held.summary, after.summary, link);
            lemma_bindings_foreign(collection, other, held, after, licensed, sources, link);
            lemma_foreign_joins(collection, link, update, summary);
            lemma_foreign_joins(collection, link, update + summary, stamp);
            lemma_foreign_joins(collection, link, update + summary + stamp, bound);
            lemma_foreign_joins(collection, link, update + summary + stamp + bound, kept);
        },
    }
}

proof fn lemma_all_items_run(
    tables: ItemTables,
    collection: Text,
    source: Text,
    before: Map<Text, HubItemView>,
    after: Map<Text, HubItemView>,
    licensed: Set<Text>,
    links: Seq<Text>,
    link: Text,
)
    requires
        ascending(links),
    ensures
        after_rows(
            tables,
            collection,
            link,
            all_item_rows(collection, source, before, after, licensed, links),
        ) == if links.contains(link) {
            after_rows(
                tables,
                collection,
                link,
                item_rows(collection, source, link, item_at(before, link), after[link], licensed),
            )
        } else {
            tables
        },
    decreases links.len(),
{
    if links.len() > 0 {
        let rest = links.drop_last();
        let other = links.last();
        lemma_ascending_rest(links);
        lemma_contains_last(links);
        lemma_all_items_run(tables, collection, source, before, after, licensed, rest, link);
        let rows = all_item_rows(collection, source, before, after, licensed, rest);
        let more = item_rows(
            collection,
            source,
            other,
            item_at(before, other),
            after[other],
            licensed,
        );
        lemma_rows_join(tables, collection, link, rows, more);
        if other != link {
            lemma_item_foreign(
                collection,
                source,
                other,
                item_at(before, other),
                after[other],
                licensed,
                link,
            );
            lemma_foreign_rows(
                after_rows(tables, collection, link, rows),
                collection,
                link,
                more,
            );
        }
    }
}

/// A saved hub is the hub the tables hold: where they held an item as it
/// was, the rows a diff moves leave them holding it as it is, its columns,
/// bindings, summary and addresses; an item nothing binds any more is live
/// no longer and keeps no binding.
///
/// A mail or contact summary is only ever written over, so its table has to
/// stay the item's.
pub proof fn lemma_a_saved_hub_is_what_the_tables_hold(
    collection: Text,
    source: Text,
    before: Map<Text, HubItemView>,
    after: Map<Text, HubItemView>,
    licensed: Set<Text>,
    link: Text,
)
    requires
        diff_rows(collection, source, before, after, licensed) is Ok,
        after.dom().finite(),
        after.dom().contains(link),
        after[link].sources.dom().finite(),
        before.dom().contains(link) ==> before[link].sources.dom().finite() && row_may_leave(
            before[link].summary,
            after[link].summary,
        ),
    ensures
        ({
            let rows = diff_rows(collection, source, before, after, licensed)->Ok_0;
            let held = after_rows(tables_before(before, link), collection, link, rows);
            if retired(item_at(before, link), after[link]) {
                held.live_row() is None && held.bindings == Map::<Text, BindingRowView>::empty()
            } else {
                held == tables_holding(link, after[link])
            }
        }),
{
    let links = in_order(after.dom());
    lemma_members(after.dom());
    assert(links.contains(link));
    let tables = tables_before(before, link);
    let freed = all_releases(collection, before, after, licensed, links)->Ok_0;
    let written = all_item_rows(collection, source, before, after, licensed, links);
    lemma_all_releases_run(tables, collection, before, after, licensed, links, link);
    lemma_rows_join(tables, collection, link, freed, written);
    let held = after_rows(tables, collection, link, freed);
    lemma_all_items_run(held, collection, source, before, after, licensed, links, link);
    lemma_item_run(
        held,
        collection,
        source,
        link,
        item_at(before, link),
        after[link],
        licensed,
    );
}

/// Saving a hub moves no row of an item the hub does not name.
pub proof fn lemma_a_saved_hub_leaves_other_items(
    collection: Text,
    source: Text,
    before: Map<Text, HubItemView>,
    after: Map<Text, HubItemView>,
    licensed: Set<Text>,
    link: Text,
    tables: ItemTables,
)
    requires
        diff_rows(collection, source, before, after, licensed) is Ok,
        after.dom().finite(),
        !after.dom().contains(link),
    ensures
        after_rows(
            tables,
            collection,
            link,
            diff_rows(collection, source, before, after, licensed)->Ok_0,
        ) == tables,
{
    let links = in_order(after.dom());
    lemma_members(after.dom());
    assert(!links.contains(link));
    let freed = all_releases(collection, before, after, licensed, links)->Ok_0;
    let written = all_item_rows(collection, source, before, after, licensed, links);
    lemma_foreign_releases(collection, before, after, licensed, links, link);
    lemma_foreign_rows(tables, collection, link, freed);
    lemma_rows_join(tables, collection, link, freed, written);
    lemma_all_items_run(tables, collection, source, before, after, licensed, links, link);
}

proof fn lemma_foreign_releases(
    collection: Text,
    before: Map<Text, HubItemView>,
    after: Map<Text, HubItemView>,
    licensed: Set<Text>,
    links: Seq<Text>,
    link: Text,
)
    requires
        all_releases(collection, before, after, licensed, links) is Ok,
        !links.contains(link),
    ensures
        foreign(
            collection,
            link,
            all_releases(collection, before, after, licensed, links)->Ok_0,
        ),
    decreases links.len(),
{
    if links.len() > 0 {
        let rest = links.drop_last();
        let other = links.last();
        lemma_contains_last(links);
        lemma_foreign_releases(collection, before, after, licensed, rest, link);
        if before.dom().contains(other) {
            let sources = in_order(before[other].sources.dom());
            assert(links.contains(other));
            lemma_releases_foreign(
                collection,
                other,
                before[other],
                after[other],
                licensed,
                sources,
                link,
            );
            lemma_foreign_joins(
                collection,
                link,
                all_releases(collection, before, after, licensed, rest)->Ok_0,
                releases(
                    collection,
                    other,
                    before[other],
                    after[other],
                    licensed,
                    sources,
                )->Ok_0,
            );
        }
    }
}

proof fn lemma_counts_foreign(
    collection: Text,
    before: Seq<Text>,
    after: Seq<Text>,
    hashes: Seq<Text>,
    link: Text,
)
    ensures
        foreign(collection, link, delta_rows(before, after, hashes)),
    decreases hashes.len(),
{
    if hashes.len() > 0 {
        let rest = delta_rows(before, after, hashes.drop_last());
        let rows = delta_rows(before, after, hashes);
        lemma_counts_foreign(collection, before, after, hashes.drop_last(), link);
        if rows.len() > rest.len() {
            lemma_foreign_joins(collection, link, rest, seq![rows.last()]);
            assert(rows =~= rest + seq![rows.last()]);
        }
    }
}

/// A batch folded into a collection's hub is what the tables then hold: for
/// every item the hub names afterwards, the rows the batch moves carry its
/// tables from the item as it was to the item as the hub folded it.
pub proof fn lemma_a_settled_batch_is_what_the_tables_hold(
    collection: Text,
    source: Text,
    before: HubView,
    ops: Seq<WriteOpView>,
    licensed: Set<Text>,
    link: Text,
)
    requires
        settled(collection, source, before, ops, licensed) is Ok,
        before.items.dom().finite(),
        forall|other: Text| #[trigger]
            before.items.dom().contains(other) ==> before.items[other].sources.dom().finite(),
        absorbed(before, source, ops).items.dom().contains(link),
        before.items.dom().contains(link) ==> row_may_leave(
            before.items[link].summary,
            absorbed(before, source, ops).items[link].summary,
        ),
    ensures
        ({
            let after = absorbed(before, source, ops).items;
            let rows = settled(collection, source, before, ops, licensed)->Ok_0;
            let held = after_rows(tables_before(before.items, link), collection, link, rows);
            if retired(item_at(before.items, link), after[link]) {
                held.live_row() is None && held.bindings == Map::<Text, BindingRowView>::empty()
            } else {
                held == tables_holding(link, after[link])
            }
        }),
{
    let whole = absorbed(before, source, ops);
    lemma_absorbed_stays_finite(before, source, ops);
    let rows = diff_rows(collection, source, before.items, whole.items, licensed)->Ok_0;
    let counts = refcount_rows(hub_refs(before), hub_refs(whole));
    let tables = tables_before(before.items, link);
    lemma_a_saved_hub_is_what_the_tables_hold(
        collection,
        source,
        before.items,
        whole.items,
        licensed,
        link,
    );
    lemma_rows_join(tables, collection, link, rows, counts);
    lemma_counts_foreign(
        collection,
        hub_refs(before),
        hub_refs(whole),
        in_order(hub_refs(before).to_set() + hub_refs(whole).to_set()),
        link,
    );
    lemma_foreign_rows(
        after_rows(tables, collection, link, rows),
        collection,
        link,
        counts,
    );
}

proof fn lemma_absorbed_stays_finite(hub: HubView, source: Text, ops: Seq<WriteOpView>)
    requires
        hub.items.dom().finite(),
        forall|link: Text| #[trigger]
            hub.items.dom().contains(link) ==> hub.items[link].sources.dom().finite(),
    ensures
        absorbed(hub, source, ops).items.dom().finite(),
        forall|link: Text| #[trigger]
            absorbed(hub, source, ops).items.dom().contains(link) ==> absorbed(
                hub,
                source,
                ops,
            ).items[link].sources.dom().finite(),
    decreases ops.len(),
{
    if ops.len() > 0 {
        lemma_absorbed_stays_finite(hub, source, ops.drop_last());
        let held = absorbed(hub, source, ops.drop_last());
        let whole = absorbed(hub, source, ops);
        match ops.last() {
            WriteOpView::DropPlacement { collection, handle, reason } => {
                assert(whole.items.dom() =~= held.items.dom());
            },
            _ => {},
        }
    }
}

proof fn lemma_inserted_run(
    tables: ItemTables,
    collection: Text,
    link: Text,
    bindings: Seq<BindingRowView>,
)
    requires
        forall|i: int| 0 <= i < bindings.len() ==> (#[trigger] bindings[i]).link_id == link,
    ensures
        after_rows(tables, collection, link, inserted(collection, bindings)) == (ItemTables {
            bindings: bound_all(tables.bindings, bindings),
            ..tables
        }),
    decreases bindings.len(),
{
    if bindings.len() > 0 {
        let rest = bindings.drop_last();
        assert forall|i: int| 0 <= i < rest.len() implies (#[trigger] rest[i]).link_id == link by {
            assert(rest[i] == bindings[i]);
        }
        assert(bindings[bindings.len() - 1].link_id == link);
        lemma_inserted_run(tables, collection, link, rest);
        assert(inserted(collection, bindings).drop_last() =~= inserted(collection, rest));
    }
}

/// Bringing an item in comes to what it was planned as, whether its key has
/// a retained row to revive or a new row is inserted.
pub proof fn lemma_an_item_comes_in_as_planned(
    tables: ItemTables,
    collection: Text,
    row: ItemRowView,
    bindings: Seq<BindingRowView>,
    kept: Option<(Option<Text>, Option<Text>)>,
    seq: i64,
)
    requires
        kept is Some == tables.row is Some,
        forall|i: int| 0 <= i < bindings.len() ==> (#[trigger] bindings[i]).link_id == row.link_id,
    ensures
        after_rows(
            tables,
            collection,
            row.link_id,
            admitted(collection, row, bindings, kept, seq),
        ) == moved(tables, RowOpView::AdmitItem { collection, row, bindings }),
{
    let link = row.link_id;
    let head = match kept {
        Some((object, conflict)) => seq![
            RowOpView::ReviveItem { collection, link_id: link },
            RowOpView::UpdateItem { collection, row },
        ] + unpinned(at_most_one(object) + at_most_one(conflict)),
        None => seq![RowOpView::InsertItem { collection, seq, row }],
    };
    lemma_rows_join(tables, collection, link, head, inserted(collection, bindings));
    let t1 = after_rows(tables, collection, link, head);
    match kept {
        Some((object, conflict)) => {
            let revive = RowOpView::ReviveItem { collection, link_id: link };
            let update = RowOpView::UpdateItem { collection, row };
            let pins = unpinned(at_most_one(object) + at_most_one(conflict));
            assert(seq![revive, update].drop_last() =~= seq![revive]);
            lemma_one_row(tables, collection, link, revive);
            lemma_rows_join(tables, collection, link, seq![revive, update], pins);
            lemma_foreign_rows(moved(moved(tables, revive), update), collection, link, pins);
        },
        None => {
            lemma_one_row(tables, collection, link, head[0]);
            assert(head =~= seq![head[0]]);
        },
    }
    assert(t1 == (ItemTables { row: Some(row), live: true, ..tables }));
    lemma_inserted_run(t1, collection, link, bindings);
}

/// Whether a hub names a handle of a source once.
pub open spec fn handles_named_once(items: Map<Text, HubItemView>) -> bool {
    forall|a: Text, b: Text, source: Text|
        #![trigger items[a].sources[source], items[b].sources[source]]
        items.dom().contains(a) && items.dom().contains(b) && items[a].sources.dom().contains(
            source,
        ) && items[b].sources.dom().contains(source) && items[a].sources[source].handle
            == items[b].sources[source].handle ==> a == b
}

/// Whether a row operation writes a binding row that was not there.
pub open spec fn arrives(op: RowOpView, row: BindingRowView) -> bool {
    match op {
        RowOpView::InsertBinding { row: written, .. } => written == row,
        RowOpView::AdmitItem { bindings, .. } => bindings.contains(row),
        _ => false,
    }
}

/// Whether a binding row tells a binding of a hub.
spec fn row_fits(items: Map<Text, HubItemView>, row: BindingRowView) -> bool {
    &&& items.dom().contains(row.link_id)
    &&& items[row.link_id].sources.dom().contains(row.source)
    &&& row.handle == items[row.link_id].sources[row.source].handle
}

/// Whether what a row operation writes tells bindings of a hub.
spec fn op_fits(items: Map<Text, HubItemView>, op: RowOpView) -> bool {
    match op {
        RowOpView::InsertBinding { row, .. } => row_fits(items, row),
        RowOpView::AdmitItem { row, bindings, .. } => forall|i: int|
            0 <= i < bindings.len() ==> row_fits(items, #[trigger] bindings[i])
                && bindings[i].link_id == row.link_id,
        _ => true,
    }
}

spec fn all_fit(items: Map<Text, HubItemView>, rows: Seq<RowOpView>) -> bool {
    forall|i: int| 0 <= i < rows.len() ==> op_fits(items, #[trigger] rows[i])
}

proof fn lemma_fits_join(items: Map<Text, HubItemView>, a: Seq<RowOpView>, b: Seq<RowOpView>)
    requires
        all_fit(items, a),
        all_fit(items, b),
    ensures
        all_fit(items, a + b),
{
    let all = a + b;
    assert forall|i: int| 0 <= i < all.len() implies op_fits(items, #[trigger] all[i]) by {
        if i < a.len() {
            assert(all[i] == a[i]);
        } else {
            assert(all[i] == b[i - a.len()]);
        }
    }
}

/// Whether the bindings of an item stand under the handles a hub names.
spec fn handles_fit(item: HubItemView, bindings: Map<Text, BindingRowView>) -> bool {
    forall|source: Text| #[trigger]
        bindings.dom().contains(source) ==> item.sources.dom().contains(source)
            && bindings[source].handle == item.sources[source].handle
}

proof fn lemma_bound_all_fits(
    items: Map<Text, HubItemView>,
    link: Text,
    bindings: Map<Text, BindingRowView>,
    rows: Seq<BindingRowView>,
)
    requires
        handles_fit(items[link], bindings),
        forall|i: int|
            0 <= i < rows.len() ==> row_fits(items, #[trigger] rows[i]) && rows[i].link_id == link,
    ensures
        handles_fit(items[link], bound_all(bindings, rows)),
    decreases rows.len(),
{
    if rows.len() > 0 {
        let rest = rows.drop_last();
        assert forall|i: int| 0 <= i < rest.len() implies row_fits(items, #[trigger] rest[i])
            && rest[i].link_id == link by {
            assert(rest[i] == rows[i]);
        }
        lemma_bound_all_fits(items, link, bindings, rest);
        assert(row_fits(items, rows[rows.len() - 1]));
        assert(rows[rows.len() - 1].link_id == link);
    }
}

proof fn lemma_fitting_rows(
    items: Map<Text, HubItemView>,
    tables: ItemTables,
    collection: Text,
    link: Text,
    rows: Seq<RowOpView>,
)
    requires
        handles_fit(items[link], tables.bindings),
        all_fit(items, rows),
    ensures
        handles_fit(items[link], after_rows(tables, collection, link, rows).bindings),
    decreases rows.len(),
{
    if rows.len() > 0 {
        let rest = rows.drop_last();
        let op = rows.last();
        assert forall|i: int| 0 <= i < rest.len() implies op_fits(items, #[trigger] rest[i]) by {
            assert(rest[i] == rows[i]);
        }
        lemma_fitting_rows(items, tables, collection, link, rest);
        assert(op_fits(items, rows[rows.len() - 1]));
        let held = after_rows(tables, collection, link, rest);
        if subject(op) == Some((collection, link)) {
            match op {
                RowOpView::AdmitItem { row, bindings, .. } => {
                    lemma_bound_all_fits(items, link, held.bindings, bindings);
                },
                _ => {},
            }
        }
    }
}

proof fn lemma_addresses_fit(
    items: Map<Text, HubItemView>,
    collection: Text,
    link: Text,
    list: Seq<(PimdirAddressRole, AddressView)>,
)
    ensures
        all_fit(items, address_rows(collection, link, list)),
    decreases list.len(),
{
    if list.len() > 0 {
        let rest = address_rows(collection, link, list.drop_last());
        let rows = address_rows(collection, link, list);
        lemma_addresses_fit(items, collection, link, list.drop_last());
        lemma_fits_join(items, rest, seq![rows.last()]);
        assert(rows =~= rest + seq![rows.last()]);
    }
}

proof fn lemma_summary_fits(
    items: Map<Text, HubItemView>,
    collection: Text,
    link: Text,
    before: Option<SummaryView>,
    after: Option<SummaryView>,
)
    ensures
        all_fit(items, summary_rows(collection, link, before, after)),
{
    if before != after {
        let gone = old_summary_rows(collection, link, before, after);
        let wiped = seq![RowOpView::ReplaceAddresses { collection, link_id: link }];
        lemma_fits_join(items, gone, wiped);
        if let Some(summary) = after {
            let upsert = seq![
                RowOpView::UpsertSummary {
                    collection,
                    link_id: link,
                    table: table_of(summary),
                    columns: columns_of(summary),
                },
            ];
            let people = address_rows(collection, link, summary.addresses());
            lemma_addresses_fit(items, collection, link, summary.addresses());
            lemma_fits_join(items, upsert, people);
            lemma_fits_join(items, gone + wiped, upsert + people);
        } else {
            lemma_fits_join(items, gone + wiped, Seq::empty());
        }
    }
}

proof fn lemma_bindings_fit(
    items: Map<Text, HubItemView>,
    collection: Text,
    link: Text,
    before: HubItemView,
    licensed: Set<Text>,
    sources: Seq<Text>,
)
    requires
        items.dom().contains(link),
        forall|i: int|
            0 <= i < sources.len() ==> items[link].sources.dom().contains(#[trigger] sources[i]),
    ensures
        all_fit(items, bindings_rows(collection, link, before, items[link], licensed, sources)),
    decreases sources.len(),
{
    if sources.len() > 0 {
        let rest = sources.drop_last();
        assert forall|i: int| 0 <= i < rest.len() implies items[link].sources.dom().contains(
            #[trigger] rest[i],
        ) by {
            assert(rest[i] == sources[i]);
        }
        assert(items[link].sources.dom().contains(sources[sources.len() - 1]));
        lemma_bindings_fit(items, collection, link, before, licensed, rest);
        lemma_fits_join(
            items,
            bindings_rows(collection, link, before, items[link], licensed, rest),
            bound_rows(collection, link, before, items[link], licensed, sources.last()),
        );
    }
}

proof fn lemma_rows_of_bindings_fit(items: Map<Text, HubItemView>, link: Text, sources: Seq<Text>)
    requires
        items.dom().contains(link),
        forall|i: int|
            0 <= i < sources.len() ==> items[link].sources.dom().contains(#[trigger] sources[i]),
    ensures
        ({
            let rows = binding_rows_of(link, items[link].sources, sources);
            forall|i: int|
                0 <= i < rows.len() ==> row_fits(items, #[trigger] rows[i]) && rows[i].link_id
                    == link
        }),
    decreases sources.len(),
{
    if sources.len() > 0 {
        let rest = sources.drop_last();
        assert forall|i: int| 0 <= i < rest.len() implies items[link].sources.dom().contains(
            #[trigger] rest[i],
        ) by {
            assert(rest[i] == sources[i]);
        }
        assert(items[link].sources.dom().contains(sources[sources.len() - 1]));
        lemma_rows_of_bindings_fit(items, link, rest);
        let rows = binding_rows_of(link, items[link].sources, sources);
        let fewer = binding_rows_of(link, items[link].sources, rest);
        assert forall|i: int| 0 <= i < rows.len() implies row_fits(items, #[trigger] rows[i])
            && rows[i].link_id == link by {
            if i < fewer.len() {
                assert(rows[i] == fewer[i]);
            }
        }
    }
}

proof fn lemma_item_fits(
    items: Map<Text, HubItemView>,
    collection: Text,
    source: Text,
    link: Text,
    before: Option<HubItemView>,
    licensed: Set<Text>,
)
    requires
        items.dom().contains(link),
        items[link].sources.dom().finite(),
    ensures
        all_fit(items, item_rows(collection, source, link, before, items[link], licensed)),
{
    let after = items[link];
    let sources = in_order(after.sources.dom());
    lemma_members(after.sources.dom());
    match before {
        None => {
            let entry = seq![
                RowOpView::AdmitItem {
                    collection,
                    row: row_of_item(link, after),
                    bindings: binding_rows_of(link, after.sources, sources),
                },
            ];
            lemma_rows_of_bindings_fit(items, link, sources);
            assert(op_fits(items, entry[0]));
            lemma_summary_fits(items, collection, link, None, after.summary);
            lemma_fits_join(items, entry, summary_rows(collection, link, None, after.summary));
        },
        Some(held) => {
            let moves = !same_columns(held, after);
            let update = if moves {
                seq![RowOpView::UpdateItem { collection, row: row_of_item(link, after) }]
            } else {
                Seq::empty()
            };
            let summary = summary_rows(collection, link, held.summary, after.summary);
            let stamp = if held.summary != after.summary && !moves {
                seq![
                    RowOpView::StampItem { collection, link_id: link },
                    RowOpView::BumpNextChange,
                ]
            } else {
                Seq::empty()
            };
            let bound = bindings_rows(collection, link, held, after, licensed, sources);
            let kept = if unbound(after) && !unbound(held) {
                retention_rows(collection, link, source)
            } else {
                Seq::empty()
            };
            lemma_summary_fits(items, collection, link, held.summary, after.summary);
            lemma_bindings_fit(items, collection, link, held, licensed, sources);
            lemma_fits_join(items, update, summary);
            lemma_fits_join(items, update + summary, stamp);
            lemma_fits_join(items, update + summary + stamp, bound);
            lemma_fits_join(items, update + summary + stamp + bound, kept);
        },
    }
}

proof fn lemma_items_fit(
    before: Map<Text, HubItemView>,
    after: Map<Text, HubItemView>,
    collection: Text,
    source: Text,
    licensed: Set<Text>,
    links: Seq<Text>,
)
    requires
        forall|i: int| 0 <= i < links.len() ==> after.dom().contains(#[trigger] links[i]),
        forall|link: Text| #[trigger]
            after.dom().contains(link) ==> after[link].sources.dom().finite(),
    ensures
        all_fit(after, all_item_rows(collection, source, before, after, licensed, links)),
    decreases links.len(),
{
    if links.len() > 0 {
        let rest = links.drop_last();
        let link = links.last();
        assert forall|i: int| 0 <= i < rest.len() implies after.dom().contains(#[trigger] rest[i]) by {
            assert(rest[i] == links[i]);
        }
        assert(after.dom().contains(links[links.len() - 1]));
        lemma_items_fit(before, after, collection, source, licensed, rest);
        lemma_item_fits(after, collection, source, link, item_at(before, link), licensed);
        lemma_fits_join(
            after,
            all_item_rows(collection, source, before, after, licensed, rest),
            item_rows(collection, source, link, item_at(before, link), after[link], licensed),
        );
    }
}

proof fn lemma_releases_bring_none(
    collection: Text,
    before: Map<Text, HubItemView>,
    after: Map<Text, HubItemView>,
    licensed: Set<Text>,
    links: Seq<Text>,
)
    requires
        all_releases(collection, before, after, licensed, links) is Ok,
    ensures
        ({
            let rows = all_releases(collection, before, after, licensed, links)->Ok_0;
            forall|i: int| 0 <= i < rows.len() ==> (#[trigger] rows[i]) is DeleteBinding
        }),
    decreases links.len(),
{
    if links.len() > 0 {
        let link = links.last();
        lemma_releases_bring_none(collection, before, after, licensed, links.drop_last());
        if before.dom().contains(link) {
            lemma_item_releases_bring_none(
                collection,
                link,
                before[link],
                after[link],
                licensed,
                in_order(before[link].sources.dom()),
            );
        }
    }
}

proof fn lemma_item_releases_bring_none(
    collection: Text,
    link: Text,
    before: HubItemView,
    after: HubItemView,
    licensed: Set<Text>,
    sources: Seq<Text>,
)
    requires
        releases(collection, link, before, after, licensed, sources) is Ok,
    ensures
        ({
            let rows = releases(collection, link, before, after, licensed, sources)->Ok_0;
            forall|i: int| 0 <= i < rows.len() ==> (#[trigger] rows[i]) is DeleteBinding
        }),
    decreases sources.len(),
{
    if sources.len() > 0 {
        lemma_item_releases_bring_none(
            collection,
            link,
            before,
            after,
            licensed,
            sources.drop_last(),
        );
    }
}

/// A handle leaves before it arrives: where the saved hub names a handle of
/// a source once, no binding is written under a handle that the tables
/// still hold for another of its items, whatever moved between the two.
pub proof fn lemma_a_handle_leaves_before_it_arrives(
    collection: Text,
    source: Text,
    before: Map<Text, HubItemView>,
    after: Map<Text, HubItemView>,
    licensed: Set<Text>,
    k: int,
    row: BindingRowView,
    other: Text,
)
    requires
        diff_rows(collection, source, before, after, licensed) is Ok,
        after.dom().finite(),
        forall|link: Text| #[trigger]
            after.dom().contains(link) ==> after[link].sources.dom().finite(),
        forall|link: Text| #[trigger]
            before.dom().contains(link) ==> before[link].sources.dom().finite(),
        handles_named_once(after),
        0 <= k < diff_rows(collection, source, before, after, licensed)->Ok_0.len(),
        arrives(diff_rows(collection, source, before, after, licensed)->Ok_0[k], row),
        after.dom().contains(other),
        other != row.link_id,
    ensures
        ({
            let rows = diff_rows(collection, source, before, after, licensed)->Ok_0;
            let held = after_rows(tables_before(before, other), collection, other, rows.take(k));
            held.bindings.dom().contains(row.source) ==> held.bindings[row.source].handle
                != row.handle
        }),
{
    let links = in_order(after.dom());
    lemma_members(after.dom());
    let freed = all_releases(collection, before, after, licensed, links)->Ok_0;
    let written = all_item_rows(collection, source, before, after, licensed, links);
    let rows = freed + written;
    let tables = tables_before(before, other);
    lemma_releases_bring_none(collection, before, after, licensed, links);
    if k < freed.len() {
        assert(rows[k] == freed[k]);
    }
    let n = k - freed.len();
    assert(rows[k] == written[n]);
    assert(rows.take(k) =~= freed + written.take(n));
    lemma_rows_join(tables, collection, other, freed, written.take(n));
    lemma_all_releases_run(tables, collection, before, after, licensed, links, other);
    assert(links.contains(other));
    let left = after_rows(tables, collection, other, freed);
    if before.dom().contains(other) {
        lemma_members(before[other].sources.dom());
    }
    assert(handles_fit(after[other], left.bindings));
    lemma_items_fit(before, after, collection, source, licensed, links);
    assert forall|i: int| 0 <= i < written.take(n).len() implies op_fits(
        after,
        #[trigger] written.take(n)[i],
    ) by {
        assert(written.take(n)[i] == written[i]);
    }
    lemma_fitting_rows(after, left, collection, other, written.take(n));
    assert(op_fits(after, written[n]));
    match written[n] {
        RowOpView::AdmitItem { bindings, .. } => {
            let i = bindings.index_of(row);
            assert(row_fits(after, bindings[i]));
        },
        _ => {},
    }
    let held = after_rows(tables, collection, other, rows.take(k));
    if held.bindings.dom().contains(row.source) {
        assert(after[row.link_id].sources[row.source].handle != after[other].sources[row.source].handle);
    }
}

} // verus!

use io_pimdir::{
    client::{
        load::{PimdirAddressRow, PimdirSummaryRow},
        producer::PimdirPendingAction,
        reader::{
            arrange, arrived, attach_addresses, attach_summaries, committed_item,
            count_from_column, count_overlaid, count_pending_creates, fold, get_item,
            item_from_row, merge_tables, overlaid, pending, pending_creates, role_or_sender,
            summary_listing, PimdirCursor, PimdirItem, PimdirListedRow, PimdirOrder,
            PimdirQueued, PimdirRetainedRow,
        },
        rows::PimdirSummaryTable,
    },
    codec::PimdirAction,
    collection::PimdirCollectionId,
    object::PimdirHash,
    placement::{PimdirFlags, PimdirLevel, PimdirLinkId},
    summary::{mail::PimdirMailSummary, PimdirAddressRole, PimdirSummary},
};

fn item(seq: i64, link: &str, key: &str) -> PimdirItem {
    PimdirItem {
        seq,
        link_id: PimdirLinkId::from(link),
        flags: PimdirFlags::default(),
        sort_key: key.into(),
        object: None,
        level: PimdirLevel::Meta,
        summary: None,
        retention: None,
    }
}

fn queued(id: i64, from: &str, action: PimdirAction) -> PimdirQueued {
    PimdirQueued {
        from: from.into(),
        action: PimdirPendingAction {
            id,
            created_at: String::new(),
            producer: "phone".into(),
            action,
            attempts: 0,
        },
    }
}

fn seqs(page: &[PimdirItem]) -> Vec<i64> {
    page.iter().map(|item| item.seq).collect()
}

#[test]
fn a_listed_row_reads_as_an_item_and_its_retention() {
    let read = item_from_row(PimdirListedRow {
        seq: 3,
        link_id: "m1".into(),
        flags: Some("[\"seen\"]".into()),
        object: Some("h1".into()),
        sort_key: "k".into(),
        level: 2,
        retained: Some(PimdirRetainedRow {
            at: "2026-08-01T10:00:00Z".into(),
            by: Some("left".into()),
            size: Some(-1),
        }),
    });
    assert_eq!(read.flags, PimdirFlags::from_iter(&["seen"]));
    assert_eq!(read.object, Some(PimdirHash::from("h1")));
    assert_eq!(read.level, PimdirLevel::Full);
    let retention = read.retention.expect("a retention");
    assert_eq!(retention.by.as_deref(), Some("left"));
    assert_eq!(retention.size, Some(0), "a negative size weighs nothing");

    assert_eq!(count_from_column(7), 7);
    assert_eq!(count_from_column(-7), 0);
    assert_eq!(role_or_sender("cc"), PimdirAddressRole::Cc);
    assert_eq!(role_or_sender("stranger"), PimdirAddressRole::From);
}

/// Equal keys are told apart by the public id.
#[test]
fn a_page_is_arranged_by_its_order() {
    let items = || vec![item(2, "b", "k2"), item(3, "a", "k1"), item(1, "c", "k2")];
    assert_eq!(seqs(&arrange(PimdirOrder::Ascending, items())), vec![3, 1, 2]);
    assert_eq!(seqs(&arrange(PimdirOrder::Descending, items())), vec![2, 1, 3]);
    assert_eq!(seqs(&arrange(PimdirOrder::ByLink, items())), vec![3, 2, 1]);
}

/// Mail is listed newest first, everything else in the order of its key.
#[test]
fn a_listing_is_picked_by_the_bare_media_type() {
    assert_eq!(
        summary_listing("message/rfc822; charset=utf-8"),
        Some((vec![PimdirSummaryTable::Mail], PimdirOrder::Descending))
    );
    assert_eq!(
        summary_listing("text/vcard"),
        Some((vec![PimdirSummaryTable::Contact], PimdirOrder::Ascending))
    );
    let (tables, order) = summary_listing("text/calendar").expect("a listing");
    assert_eq!(tables.len(), 3);
    assert_eq!(order, PimdirOrder::Ascending);
}

#[test]
fn the_tables_of_a_calendar_merge_into_one_page() {
    let rows = vec![item(1, "a", "k3"), item(2, "b", "k1"), item(3, "c", "k2")];
    assert_eq!(seqs(&merge_tables(&rows, 2)), vec![2, 3]);
    assert_eq!(seqs(&merge_tables(&rows, 9)), vec![2, 3, 1]);
}

#[test]
fn summaries_and_people_are_attached_to_the_items_they_name() {
    let mut page = vec![item(1, "m1", "k"), item(2, "m2", "k")];
    attach_summaries(
        &mut page,
        &vec![PimdirSummaryRow {
            link_id: "m2".into(),
            summary: PimdirSummary::Mail(PimdirMailSummary {
                subject: "Hi".into(),
                ..Default::default()
            }),
        }],
        &vec![PimdirAddressRow {
            link_id: "m2".into(),
            role: "to".into(),
            address: "a@x.y".into(),
            name: None,
        }],
    );
    assert_eq!(page[0].summary, None);
    let Some(PimdirSummary::Mail(mail)) = &page[1].summary else {
        panic!("a mail summary");
    };
    assert_eq!(mail.to[0].address, "a@x.y");

    attach_addresses(
        &mut page,
        &vec![PimdirAddressRow {
            link_id: "m2".into(),
            role: "cc".into(),
            address: "b@x.y".into(),
            name: None,
        }],
    );
    let Some(PimdirSummary::Mail(mail)) = &page[1].summary else {
        panic!("a mail summary");
    };
    assert_eq!(mail.cc[0].address, "b@x.y");
}

#[test]
fn a_queue_touches_the_items_it_names_and_moves_some_in() {
    let queue = pending(
        "inbox",
        vec![
            queued(1, "inbox", PimdirAction::Remove { seq: 4 }),
            queued(2, "archive", PimdirAction::Move {
                seq: 9,
                to: PimdirCollectionId::from("inbox"),
            }),
            queued(3, "archive", PimdirAction::Remove { seq: 8 }),
        ],
    );
    assert_eq!(queue.removals(), 1);
    assert_eq!(queue.fetch_limit(10), 11);
    assert_eq!(queue.fetch_limit(usize::MAX), usize::MAX);
    assert_eq!(queue.arrivals.get(9).map(String::as_str), Some("archive"));
    assert!(queue.edits.get(8).is_none(), "another collection's queue is its own");
}

/// A queued change is shown before it is drained.
#[test]
fn a_queue_is_folded_over_the_committed_items() {
    let queue = pending(
        "inbox",
        vec![
            queued(1, "inbox", PimdirAction::SetFlags {
                seq: 1,
                flags: PimdirFlags::from_iter(&["seen"]),
            }),
            queued(2, "inbox", PimdirAction::Remove { seq: 2 }),
            queued(3, "inbox", PimdirAction::Update { seq: 3, object: PimdirHash::from("h9") }),
        ],
    );
    let flagged = fold(item(1, "a", "k"), &queue).expect("kept");
    assert!(flagged.flags.contains("seen"));
    assert_eq!(fold(item(2, "b", "k"), &queue), None);
    let edited = fold(item(3, "c", "k"), &queue).expect("kept");
    assert_eq!(edited.object, Some(PimdirHash::from("h9")));
    assert_eq!(fold(item(4, "d", "k"), &queue), Some(item(4, "d", "k")));

    assert_eq!(get_item(Some(item(2, "b", "k")), None, &queue), None);
    let mut summed = item(5, "e", "k");
    summed.summary = Some(PimdirSummary::Mail(PimdirMailSummary::default()));
    assert_eq!(
        committed_item(&vec![Some(item(5, "e", "k")), Some(summed.clone())]),
        Some(summed),
        "the table that has a summary gives it"
    );
    assert_eq!(committed_item(&vec![None]), None);
}

#[test]
fn an_overlaid_page_keeps_its_order_and_its_limit() {
    let queue = pending("inbox", vec![queued(1, "inbox", PimdirAction::Remove { seq: 2 })]);
    let page = vec![item(1, "a", "k1"), item(2, "b", "k2"), item(3, "c", "k3")];
    let shown = overlaid(PimdirOrder::Ascending, &None, &page, &queue, &vec![], 2);
    assert_eq!(seqs(&shown), vec![1, 3]);

    let idle = pending("inbox", vec![]);
    let shown = overlaid(PimdirOrder::Ascending, &None, &page, &idle, &vec![], 3);
    assert_eq!(shown, page, "an idle queue shows what is committed");

    let arriving = vec![item(9, "z", "k2")];
    let shown = overlaid(
        PimdirOrder::Ascending,
        &Some(PimdirCursor { key: "k1".into(), seq: 1 }),
        &vec![item(3, "c", "k3")],
        &idle,
        &arriving,
        5,
    );
    assert_eq!(seqs(&shown), vec![9, 3]);
}

#[test]
fn an_arrival_is_counted_and_a_removal_is_not() {
    let queue = pending(
        "inbox",
        vec![
            queued(1, "inbox", PimdirAction::Remove { seq: 2 }),
            queued(2, "archive", PimdirAction::Move {
                seq: 9,
                to: PimdirCollectionId::from("inbox"),
            }),
        ],
    );
    let arrivals = arrived(&vec![Some(item(9, "z", "k")), None], &queue);
    assert_eq!(seqs(&arrivals), vec![9]);
    assert_eq!(
        count_overlaid(5, &vec![item(2, "b", "k")], arrivals.len(), &queue),
        5,
        "one goes and one comes"
    );
}

#[test]
fn queued_creates_are_listed_and_counted() {
    let add = |id: i64| {
        queued(id, "inbox", PimdirAction::Add {
            link_id: None,
            flags: PimdirFlags::default(),
            object: None,
            handle: None,
        })
        .action
    };
    let actions = vec![add(1), queued(2, "inbox", PimdirAction::Remove { seq: 1 }).action, add(3)];
    assert_eq!(count_pending_creates(&actions), 2);
    let ids: Vec<i64> = pending_creates(&actions).iter().map(|action| action.id).collect();
    assert_eq!(ids, vec![1, 3]);
}

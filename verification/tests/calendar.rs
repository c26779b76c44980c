use io_pimdir::summary::PimdirSummary;

const EVENT: &[u8] = b"BEGIN:VCALENDAR\r\nBEGIN:VTIMEZONE\r\nTZID:Europe/Paris\r\nBEGIN:STANDARD\r\nDTSTART:19701025T030000\r\nRRULE:FREQ=YEARLY;BYMONTH=10;BYDAY=-1SU\r\nTZOFFSETFROM:+0200\r\nTZOFFSETTO:+0100\r\nEND:STANDARD\r\nBEGIN:DAYLIGHT\r\nDTSTART:19700329T020000\r\nRRULE:FREQ=YEARLY;BYMONTH=3;BYDAY=-1SU\r\nTZOFFSETFROM:+0100\r\nTZOFFSETTO:+0200\r\nEND:DAYLIGHT\r\nEND:VTIMEZONE\r\nBEGIN:VEVENT\r\nUID:e1\r\nSUMMARY:Stand\\, up\r\nDTSTART;TZID=Europe/Paris:20260801T120000\r\nDTEND;TZID=Europe/Paris:20260801T123000\r\nORGANIZER;CN=\"Alice, A.\":mailto:Alice@Example.org\r\nATTENDEE:mailto:bob@example.org\r\nRRULE:FREQ=WEEKLY;UNTIL=20261231T000000Z\r\nEND:VEVENT\r\nEND:VCALENDAR\r\n";

#[test]
fn an_event_resolves_its_zoned_start_and_reads_its_people() {
    let derivation = io_pimdir::summary::calendar::derive(EVENT);
    let Some(PimdirSummary::Event(event)) = derivation.summary else {
        panic!("an event summary");
    };
    assert_eq!(derivation.link_id.as_str(), "e1");
    assert_eq!(derivation.sort_key.as_str(), "2026-08-01T10:00:00Z");
    assert_eq!(event.summary, "Stand, up");
    assert_eq!(
        event.dtstart.as_ref().unwrap().tzid.as_deref(),
        Some("Europe/Paris")
    );
    assert_eq!(event.until.as_deref(), Some("20261231T000000Z"));
    assert_eq!(event.recurring, Some(true));
    let organizer = event.organizer.unwrap();
    assert_eq!(organizer.address, "alice@example.org");
    assert_eq!(organizer.name.as_deref(), Some("Alice, A."));
    assert_eq!(event.attendees[0].address, "bob@example.org");
}

#[test]
fn a_task_keys_on_its_due_date_and_a_journal_on_its_start() {
    let task = io_pimdir::summary::calendar::derive(b"BEGIN:VCALENDAR\r\nBEGIN:VTODO\r\nUID:t1\r\nDUE;VALUE=DATE:20260810\r\nSTATUS:needs-action\r\nPERCENT-COMPLETE:40\r\nEND:VTODO\r\nEND:VCALENDAR\r\n");
    assert_eq!(task.sort_key.as_str(), "2026-08-10T00:00:00Z");
    let Some(PimdirSummary::Task(task)) = task.summary else {
        panic!("a task summary");
    };
    assert_eq!(task.status.as_deref(), Some("NEEDS-ACTION"));
    assert_eq!(task.percent, Some(40));
    assert!(task.due.unwrap().date);

    let journal = io_pimdir::summary::calendar::derive(b"BEGIN:VCALENDAR\r\nBEGIN:VJOURNAL\r\nUID:j1\r\nDTSTART:20260801T100000Z\r\nEND:VJOURNAL\r\nEND:VCALENDAR\r\n");
    assert!(matches!(journal.summary, Some(PimdirSummary::Journal(_))));
    assert_eq!(journal.sort_key.as_str(), "2026-08-01T10:00:00Z");
}

#[test]
fn a_resource_with_no_table_is_an_item_with_no_summary() {
    let busy = io_pimdir::summary::calendar::derive(
        b"BEGIN:VCALENDAR\r\nBEGIN:VFREEBUSY\r\nUID:f1\r\nEND:VFREEBUSY\r\nEND:VCALENDAR\r\n",
    );
    assert_eq!(busy.link_id.as_str(), "f1");
    assert_eq!(busy.summary, None);
    assert_eq!(busy.sort_key.as_str(), "");
}

#[test]
fn the_ambiguous_and_missing_hours_take_the_greater_offset() {
    let with_start = |start: &str| {
        let body = format!(
            "BEGIN:VCALENDAR\r\nBEGIN:VTIMEZONE\r\nTZID:Europe/Paris\r\nBEGIN:STANDARD\r\nDTSTART:19701025T030000\r\nRRULE:FREQ=YEARLY;BYMONTH=10;BYDAY=-1SU\r\nTZOFFSETFROM:+0200\r\nTZOFFSETTO:+0100\r\nEND:STANDARD\r\nBEGIN:DAYLIGHT\r\nDTSTART:19700329T020000\r\nRRULE:FREQ=YEARLY;BYMONTH=3;BYDAY=-1SU\r\nTZOFFSETFROM:+0100\r\nTZOFFSETTO:+0200\r\nEND:DAYLIGHT\r\nEND:VTIMEZONE\r\nBEGIN:VEVENT\r\nUID:x\r\nDTSTART;TZID=Europe/Paris:{start}\r\nEND:VEVENT\r\nEND:VCALENDAR\r\n"
        );
        io_pimdir::summary::calendar::derive(body.as_bytes()).sort_key.0
    };
    assert_eq!(
        with_start("20261025T023000"),
        "2026-10-25T00:30:00Z",
        "the repeated hour reads as summer time"
    );
    assert_eq!(
        with_start("20260329T023000"),
        "2026-03-29T00:30:00Z",
        "the skipped hour reads as summer time"
    );
}

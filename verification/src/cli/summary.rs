//! # Summaries as the operator sees them
//!
//! A summary row rendered from store data alone: its table, its columns and
//! its addresses.

use crate::client::rows::{columns_of, summary_columns, PimdirValue, ValueView};
use crate::codec::{push_signed, signed_text};
use crate::list::push_to;
use crate::scan::{decimal, decimal_text};
use crate::summary::{AddressView, PimdirAddress, PimdirAddressRole, PimdirSummary, SummaryView, people};
use crate::text::Text;
use vstd::prelude::*;
use vstd::string::*;

verus! {

/// The table a summary is written to.
pub open spec fn table_name(summary: SummaryView) -> Text {
    match summary {
        SummaryView::Mail(_) => "mail_summary"@,
        SummaryView::Contact(_) => "contact_summary"@,
        SummaryView::Event(_) => "event_summary"@,
        SummaryView::Task(_) => "task_summary"@,
        SummaryView::Journal(_) => "journal_summary"@,
    }
}

/// The columns of a summary's table, in the table's order.
pub open spec fn column_names(summary: SummaryView) -> Seq<Text> {
    match summary {
        SummaryView::Mail(_) => seq![
            "message_id"@,
            "in_reply_to"@,
            "subject"@,
            "sender"@,
            "sender_name"@,
            "date"@,
            "size"@,
            "attachment"@,
        ],
        SummaryView::Contact(_) => seq![
            "uid"@,
            "fn"@,
            "kind"@,
            "org"@,
        ],
        SummaryView::Event(_) => seq![
            "uid"@,
            "summary"@,
            "location"@,
            "dtstart"@,
            "dtstart_tzid"@,
            "dtstart_value"@,
            "dtend"@,
            "recurring"@,
            "until"@,
        ],
        SummaryView::Task(_) => seq![
            "uid"@,
            "summary"@,
            "dtstart"@,
            "dtstart_tzid"@,
            "dtstart_value"@,
            "due"@,
            "due_tzid"@,
            "due_value"@,
            "status"@,
            "completed"@,
            "percent"@,
            "recurring"@,
            "until"@,
        ],
        SummaryView::Journal(_) => seq![
            "uid"@,
            "summary"@,
            "dtstart"@,
            "dtstart_tzid"@,
            "dtstart_value"@,
        ],
    }
}

/// The table a summary is written to.
pub fn table(summary: &PimdirSummary) -> (name: &'static str)
    ensures
        name@ == table_name(summary@),
{
    match summary {
        PimdirSummary::Mail(_) => "mail_summary",
        PimdirSummary::Contact(_) => "contact_summary",
        PimdirSummary::Event(_) => "event_summary",
        PimdirSummary::Task(_) => "task_summary",
        PimdirSummary::Journal(_) => "journal_summary",
    }
}

/// Adds a column's name.
fn put(names: &mut Vec<String>, name: &str)
    ensures
        final(names).deep_view() == old(names).deep_view().push(name@),
{
    push_to(names, name.to_owned());
}

/// The columns of a summary's table, in the table's order.
pub fn names(summary: &PimdirSummary) -> (names: Vec<String>)
    ensures
        names.deep_view() == column_names(summary@),
{
    let mut names: Vec<String> = Vec::new();
    match summary {
        PimdirSummary::Mail(_) => {
            put(&mut names, "message_id");
            put(&mut names, "in_reply_to");
            put(&mut names, "subject");
            put(&mut names, "sender");
            put(&mut names, "sender_name");
            put(&mut names, "date");
            put(&mut names, "size");
            put(&mut names, "attachment");
        },
        PimdirSummary::Contact(_) => {
            put(&mut names, "uid");
            put(&mut names, "fn");
            put(&mut names, "kind");
            put(&mut names, "org");
        },
        PimdirSummary::Event(_) => {
            put(&mut names, "uid");
            put(&mut names, "summary");
            put(&mut names, "location");
            put(&mut names, "dtstart");
            put(&mut names, "dtstart_tzid");
            put(&mut names, "dtstart_value");
            put(&mut names, "dtend");
            put(&mut names, "recurring");
            put(&mut names, "until");
        },
        PimdirSummary::Task(_) => {
            put(&mut names, "uid");
            put(&mut names, "summary");
            put(&mut names, "dtstart");
            put(&mut names, "dtstart_tzid");
            put(&mut names, "dtstart_value");
            put(&mut names, "due");
            put(&mut names, "due_tzid");
            put(&mut names, "due_value");
            put(&mut names, "status");
            put(&mut names, "completed");
            put(&mut names, "percent");
            put(&mut names, "recurring");
            put(&mut names, "until");
        },
        PimdirSummary::Journal(_) => {
            put(&mut names, "uid");
            put(&mut names, "summary");
            put(&mut names, "dtstart");
            put(&mut names, "dtstart_tzid");
            put(&mut names, "dtstart_value");
        },
    }
    assert(names.deep_view() =~= column_names(summary@));
    names
}

/// A column's value as it is printed.
pub open spec fn value_text(value: ValueView) -> Text {
    match value {
        ValueView::Null => "-"@,
        ValueView::Other => "-"@,
        ValueView::Text(text) => text,
        ValueView::Integer(n) => signed_text(n as int),
    }
}

/// The values of a summary's columns as they are printed, a message's size
/// in full.
pub open spec fn value_texts(summary: SummaryView) -> Seq<Text> {
    let texts = columns_of(summary).map_values(|value: ValueView| value_text(value));
    match summary {
        SummaryView::Mail(mail) => match mail.size {
            Some(size) => texts.update(6, decimal_text(size as nat)),
            None => texts,
        },
        _ => texts,
    }
}

/// A column's value as it is printed.
fn print_value(value: &PimdirValue) -> (text: String)
    ensures
        text@ == value_text(value@),
{
    match value {
        PimdirValue::Null | PimdirValue::Other => "-".to_owned(),
        PimdirValue::Text(text) => text.clone(),
        PimdirValue::Integer(n) => {
            let mut text = String::new();
            push_signed(&mut text, *n);
            assert(text@ =~= signed_text(*n as int));
            text
        },
    }
}

/// The summary's table and its columns, in the table's order, each with its
/// value as it is printed.
pub open spec fn columns_told(summary: SummaryView) -> Seq<(Text, Text)> {
    Seq::new(
        column_names(summary).len(),
        |i: int| (column_names(summary)[i], value_texts(summary)[i]),
    )
}

/// The summary's columns, in the table's order, each with its value as it
/// is printed.
pub fn columns(summary: &PimdirSummary) -> (told: Vec<(String, String)>)
    ensures
        told.deep_view() == columns_told(summary@),
{
    let names = names(summary);
    let values = summary_columns(summary);
    let ghost all = columns_told(summary@);
    proof {
        assert(names.len() == column_names(summary@).len());
        assert(values.len() == values.deep_view().len());
        assert(columns_of(summary@).len() == column_names(summary@).len());
    }
    let size: Option<u64> = match summary {
        PimdirSummary::Mail(mail) => mail.size,
        _ => None,
    };
    let mut told: Vec<(String, String)> = Vec::new();
    let mut i: usize = 0;
    assert(told.deep_view() =~= all.take(0));
    while i < names.len()
        invariant
            i <= names.len(),
            names.len() == values.len(),
            names.deep_view() == column_names(summary@),
            values.deep_view() == columns_of(summary@),
            all == columns_told(summary@),
            all.len() == names.len(),
            size == match summary@ {
                SummaryView::Mail(mail) => mail.size,
                _ => None,
            },
            told.deep_view() == all.take(i as int),
        decreases names.len() - i,
    {
        assert(column_names(summary@)[i as int] == names@[i as int]@);
        assert(columns_of(summary@)[i as int] == values@[i as int]@);
        let text = match size {
            Some(size) => if i == 6 {
                decimal(size)
            } else {
                print_value(&values[i])
            },
            None => print_value(&values[i]),
        };
        assert(text@ == value_texts(summary@)[i as int]);
        push_to(&mut told, (names[i].clone(), text));
        assert(told.deep_view() =~= all.take(i + 1));
        i = i + 1;
    }
    assert(all.take(i as int) =~= all);
    told
}

/// A person as a line.
pub open spec fn person_line(person: (PimdirAddressRole, AddressView)) -> Text {
    match person.1.name {
        Some(name) => "    - "@ + person.0.text() + ": "@ + name + " <"@ + person.1.address + ">"@,
        None => "    - "@ + person.0.text() + ": "@ + person.1.address,
    }
}

/// The lines printed under a placement: the table, one line per column,
/// then one per address.
pub open spec fn summary_lines(summary: SummaryView) -> Seq<Text> {
    seq![" - summary ("@ + table_name(summary) + "):"@] + columns_told(summary).map_values(
        |column: (Text, Text)| "    - "@ + column.0 + ": "@ + column.1,
    ) + summary.addresses().map_values(
        |person: (PimdirAddressRole, AddressView)| person_line(person),
    )
}

/// A person as a line.
fn person_text(role: PimdirAddressRole, person: &PimdirAddress) -> (text: String)
    ensures
        text@ == person_line((role, person@)),
{
    let mut text = "    - ".to_owned();
    text.append(role.as_str());
    text.append(": ");
    match &person.name {
        Some(name) => {
            text.append(name.as_str());
            text.append(" <");
            text.append(person.address.as_str());
            text.append(">");
        },
        None => text.append(person.address.as_str()),
    }
    text
}

/// The lines printed under a placement: the table, one line per column,
/// then one per address.
pub fn lines(summary: &PimdirSummary) -> (lines: Vec<String>)
    ensures
        lines.deep_view() == summary_lines(summary@),
{
    let mut lines: Vec<String> = Vec::new();
    let mut first = " - summary (".to_owned();
    first.append(table(summary));
    first.append("):");
    push_to(&mut lines, first);
    let ghost start = lines.deep_view();
    assert(start =~= seq![" - summary ("@ + table_name(summary@) + "):"@]);
    let told = columns(summary);
    let ghost all = told.deep_view();
    let ghost shown = |column: (Text, Text)| "    - "@ + column.0 + ": "@ + column.1;
    let mut i: usize = 0;
    assert(start + all.take(0).map_values(shown) =~= start);
    while i < told.len()
        invariant
            i <= told.len(),
            all == told.deep_view(),
            shown == (|column: (Text, Text)| "    - "@ + column.0 + ": "@ + column.1),
            lines.deep_view() == start + all.take(i as int).map_values(shown),
        decreases told.len() - i,
    {
        assert(all[i as int] == (told@[i as int].0@, told@[i as int].1@));
        let mut line = "    - ".to_owned();
        line.append(told[i].0.as_str());
        line.append(": ");
        line.append(told[i].1.as_str());
        push_to(&mut lines, line);
        assert(lines.deep_view() =~= start + all.take(i + 1).map_values(shown));
        i = i + 1;
    }
    assert(all.take(i as int) =~= all);
    let ghost above = lines.deep_view();
    let list = summary.addresses();
    let ghost named = people(list@);
    let ghost says = |person: (PimdirAddressRole, AddressView)| person_line(person);
    let mut k: usize = 0;
    assert(above + named.take(0).map_values(says) =~= above);
    while k < list.len()
        invariant
            k <= list.len(),
            named == people(list@),
            says == (|person: (PimdirAddressRole, AddressView)| person_line(person)),
            lines.deep_view() == above + named.take(k as int).map_values(says),
        decreases list.len() - k,
    {
        let (role, person) = list[k];
        assert(named[k as int] == (role, person@));
        push_to(&mut lines, person_text(role, person));
        assert(lines.deep_view() =~= above + named.take(k + 1).map_values(says));
        k = k + 1;
    }
    assert(named.take(k as int) =~= named);
    lines
}

/// A shown summary tells each column of its row under its name, a count by
/// its digits and nothing by a dash.
pub proof fn lemma_a_shown_summary_tells_its_columns(summary: SummaryView, i: int)
    requires
        0 <= i < columns_of(summary).len(),
    ensures
        columns_told(summary).len() == columns_of(summary).len(),
        columns_told(summary)[i].0 == column_names(summary)[i],
        columns_of(summary)[i] matches ValueView::Text(text) ==> columns_told(summary)[i].1 == text,
        columns_of(summary)[i] == ValueView::Null ==> columns_told(summary)[i].1 == "-"@,
        columns_of(summary)[i] matches ValueView::Integer(n) ==> !(summary is Mail)
            ==> columns_told(summary)[i].1 == signed_text(n as int),
        summary_lines(summary).len() == 1 + columns_of(summary).len() + summary.addresses().len(),
{
}

} // verus!

//! # Calendar summaries
//!
//! The `text/calendar` derivations: the item is the resource, summarised
//! from the master component, one row in the table of its type. Times are
//! carried verbatim with the parameters that give them meaning; the one
//! resolved instant is the sort key, read through the `VTIMEZONE` the
//! resource itself carries and nothing else.

use crate::list::push_to;
use crate::placement::PimdirSortKey;
use crate::scan::{
    bounded_decimal, chars_of, cut_once, find_char, is_white, lower_ascii, parse_signed,
    parse_unsigned, pieces, spells_any_case, split, split_on, split_once, text_of, to_upper, trim, trimmed, uppercase,
};
use crate::summary::contact::{
    content_lines, first_line, first_line_of, first_line_value, first_value,
    lemma_the_first_line_of_a_name, line_view, or_empty,
    unescape, unescaped_option, value_of, ContentLineView, PimdirContentLine,
};
use crate::summary::time::{
    civil_days, day_of_week, days_from_civil, days_in_month, digits, digits_at, instant_text,
    month_days, rfc3339, unix, unix_seconds, weekday,
};
use crate::summary::{
    canonical_address, clone_addresses, hinted_key, key_or_hash, unfold, unfolded, AddressView,
    DerivationView, PimdirAddress, PimdirDerivation, PimdirSummary, SummaryView,
};
use crate::text::{text_same, Text};
use vstd::prelude::*;
use vstd::slice::*;
use vstd::string::*;
use vstd::utf8::*;

verus! {

/// A `DTSTART` or `DUE` value with the parameters that give it meaning.
#[derive(Debug, PartialEq, Eq)]
pub struct PimdirTime {
    /// The value verbatim.
    pub value: String,
    /// The `TZID` parameter naming the zone the value is local to.
    pub tzid: Option<String>,
    /// Whether the value is a `date` rather than a `date-time`.
    pub date: bool,
}

/// What a [`PimdirTime`] says, by value.
#[verifier::ext_equal]
pub struct TimeView {
    pub value: Text,
    pub tzid: Option<Text>,
    pub date: bool,
}

impl View for PimdirTime {
    type V = TimeView;

    open spec fn view(&self) -> TimeView {
        TimeView {
            value: self.value@,
            tzid: self.tzid.deep_view(),
            date: self.date,
        }
    }
}

impl DeepView for PimdirTime {
    type V = TimeView;

    open spec fn deep_view(&self) -> TimeView {
        self@
    }
}

impl Clone for PimdirTime {
    fn clone(&self) -> (copy: Self)
        ensures
            copy@ == self@,
    {
        PimdirTime {
            value: self.value.clone(),
            tzid: self.tzid.clone(),
            date: self.date,
        }
    }
}

impl Default for PimdirTime {
    fn default() -> (made: Self)
        ensures
            made@ == (TimeView {
                value: Text::empty(),
                tzid: None,
                date: false,
            }),
    {
        PimdirTime {
            value: String::new(),
            tzid: None,
            date: false,
        }
    }
}

/// The summary row of a `VEVENT` resource with its people.
#[derive(Debug, PartialEq, Eq)]
pub struct PimdirEventSummary {
    /// The `UID` verbatim.
    pub uid: Option<String>,
    /// The master's `SUMMARY`, unescaped; empty when absent.
    pub summary: String,
    /// The `LOCATION`, unescaped.
    pub location: Option<String>,
    /// The master's `DTSTART`.
    pub dtstart: Option<PimdirTime>,
    /// The `DTEND` verbatim; a `DURATION` is not resolved.
    pub dtend: Option<String>,
    /// Whether the master carries an `RRULE` or `RDATE`; `None` when not examined.
    pub recurring: Option<bool>,
    /// The `RRULE`'s `UNTIL` verbatim.
    pub until: Option<String>,
    /// The `ORGANIZER`.
    pub organizer: Option<PimdirAddress>,
    /// Every `ATTENDEE`, in document order.
    pub attendees: Vec<PimdirAddress>,
}

/// What a [`PimdirEventSummary`] says, by value.
#[verifier::ext_equal]
pub struct EventSummaryView {
    pub uid: Option<Text>,
    pub summary: Text,
    pub location: Option<Text>,
    pub dtstart: Option<TimeView>,
    pub dtend: Option<Text>,
    pub recurring: Option<bool>,
    pub until: Option<Text>,
    pub organizer: Option<AddressView>,
    pub attendees: Seq<AddressView>,
}

impl View for PimdirEventSummary {
    type V = EventSummaryView;

    open spec fn view(&self) -> EventSummaryView {
        EventSummaryView {
            uid: self.uid.deep_view(),
            summary: self.summary@,
            location: self.location.deep_view(),
            dtstart: self.dtstart.deep_view(),
            dtend: self.dtend.deep_view(),
            recurring: self.recurring,
            until: self.until.deep_view(),
            organizer: self.organizer.deep_view(),
            attendees: self.attendees.deep_view(),
        }
    }
}

impl DeepView for PimdirEventSummary {
    type V = EventSummaryView;

    open spec fn deep_view(&self) -> EventSummaryView {
        self@
    }
}

impl Clone for PimdirEventSummary {
    fn clone(&self) -> (copy: Self)
        ensures
            copy@ == self@,
    {
        PimdirEventSummary {
            uid: self.uid.clone(),
            summary: self.summary.clone(),
            location: self.location.clone(),
            dtstart: self.dtstart.clone(),
            dtend: self.dtend.clone(),
            recurring: self.recurring,
            until: self.until.clone(),
            organizer: self.organizer.clone(),
            attendees: clone_addresses(&self.attendees),
        }
    }
}

impl Default for PimdirEventSummary {
    fn default() -> (made: Self)
        ensures
            made@ == (EventSummaryView {
                uid: None,
                summary: Text::empty(),
                location: None,
                dtstart: None,
                dtend: None,
                recurring: None,
                until: None,
                organizer: None,
                attendees: Seq::<AddressView>::empty(),
            }),
    {
        PimdirEventSummary {
            uid: None,
            summary: String::new(),
            location: None,
            dtstart: None,
            dtend: None,
            recurring: None,
            until: None,
            organizer: None,
            attendees: Vec::new(),
        }
    }
}

/// The summary row of a `VTODO` resource with its people.
#[derive(Debug, PartialEq, Eq)]
pub struct PimdirTaskSummary {
    /// The `UID` verbatim.
    pub uid: Option<String>,
    /// The master's `SUMMARY`, unescaped; empty when absent.
    pub summary: String,
    /// The master's `DTSTART`.
    pub dtstart: Option<PimdirTime>,
    /// The `DUE`.
    pub due: Option<PimdirTime>,
    /// The `STATUS` uppercased verbatim.
    pub status: Option<String>,
    /// The `COMPLETED` verbatim, always UTC.
    pub completed: Option<String>,
    /// The `PERCENT-COMPLETE`.
    pub percent: Option<i64>,
    /// Whether the master carries an `RRULE` or `RDATE`; `None` when not examined.
    pub recurring: Option<bool>,
    /// The `RRULE`'s `UNTIL` verbatim.
    pub until: Option<String>,
    /// The `ORGANIZER`.
    pub organizer: Option<PimdirAddress>,
    /// Every `ATTENDEE`, in document order.
    pub attendees: Vec<PimdirAddress>,
}

/// What a [`PimdirTaskSummary`] says, by value.
#[verifier::ext_equal]
pub struct TaskSummaryView {
    pub uid: Option<Text>,
    pub summary: Text,
    pub dtstart: Option<TimeView>,
    pub due: Option<TimeView>,
    pub status: Option<Text>,
    pub completed: Option<Text>,
    pub percent: Option<i64>,
    pub recurring: Option<bool>,
    pub until: Option<Text>,
    pub organizer: Option<AddressView>,
    pub attendees: Seq<AddressView>,
}

impl View for PimdirTaskSummary {
    type V = TaskSummaryView;

    open spec fn view(&self) -> TaskSummaryView {
        TaskSummaryView {
            uid: self.uid.deep_view(),
            summary: self.summary@,
            dtstart: self.dtstart.deep_view(),
            due: self.due.deep_view(),
            status: self.status.deep_view(),
            completed: self.completed.deep_view(),
            percent: self.percent,
            recurring: self.recurring,
            until: self.until.deep_view(),
            organizer: self.organizer.deep_view(),
            attendees: self.attendees.deep_view(),
        }
    }
}

impl DeepView for PimdirTaskSummary {
    type V = TaskSummaryView;

    open spec fn deep_view(&self) -> TaskSummaryView {
        self@
    }
}

impl Clone for PimdirTaskSummary {
    fn clone(&self) -> (copy: Self)
        ensures
            copy@ == self@,
    {
        PimdirTaskSummary {
            uid: self.uid.clone(),
            summary: self.summary.clone(),
            dtstart: self.dtstart.clone(),
            due: self.due.clone(),
            status: self.status.clone(),
            completed: self.completed.clone(),
            percent: self.percent,
            recurring: self.recurring,
            until: self.until.clone(),
            organizer: self.organizer.clone(),
            attendees: clone_addresses(&self.attendees),
        }
    }
}

impl Default for PimdirTaskSummary {
    fn default() -> (made: Self)
        ensures
            made@ == (TaskSummaryView {
                uid: None,
                summary: Text::empty(),
                dtstart: None,
                due: None,
                status: None,
                completed: None,
                percent: None,
                recurring: None,
                until: None,
                organizer: None,
                attendees: Seq::<AddressView>::empty(),
            }),
    {
        PimdirTaskSummary {
            uid: None,
            summary: String::new(),
            dtstart: None,
            due: None,
            status: None,
            completed: None,
            percent: None,
            recurring: None,
            until: None,
            organizer: None,
            attendees: Vec::new(),
        }
    }
}

/// The summary row of a `VJOURNAL` resource with its people.
#[derive(Debug, PartialEq, Eq)]
pub struct PimdirJournalSummary {
    /// The `UID` verbatim.
    pub uid: Option<String>,
    /// The master's `SUMMARY`, unescaped; empty when absent.
    pub summary: String,
    /// The master's `DTSTART`.
    pub dtstart: Option<PimdirTime>,
    /// The `ORGANIZER`.
    pub organizer: Option<PimdirAddress>,
    /// Every `ATTENDEE`, in document order.
    pub attendees: Vec<PimdirAddress>,
}

/// What a [`PimdirJournalSummary`] says, by value.
#[verifier::ext_equal]
pub struct JournalSummaryView {
    pub uid: Option<Text>,
    pub summary: Text,
    pub dtstart: Option<TimeView>,
    pub organizer: Option<AddressView>,
    pub attendees: Seq<AddressView>,
}

impl View for PimdirJournalSummary {
    type V = JournalSummaryView;

    open spec fn view(&self) -> JournalSummaryView {
        JournalSummaryView {
            uid: self.uid.deep_view(),
            summary: self.summary@,
            dtstart: self.dtstart.deep_view(),
            organizer: self.organizer.deep_view(),
            attendees: self.attendees.deep_view(),
        }
    }
}

impl DeepView for PimdirJournalSummary {
    type V = JournalSummaryView;

    open spec fn deep_view(&self) -> JournalSummaryView {
        self@
    }
}

impl Clone for PimdirJournalSummary {
    fn clone(&self) -> (copy: Self)
        ensures
            copy@ == self@,
    {
        PimdirJournalSummary {
            uid: self.uid.clone(),
            summary: self.summary.clone(),
            dtstart: self.dtstart.clone(),
            organizer: self.organizer.clone(),
            attendees: clone_addresses(&self.attendees),
        }
    }
}

impl Default for PimdirJournalSummary {
    fn default() -> (made: Self)
        ensures
            made@ == (JournalSummaryView {
                uid: None,
                summary: Text::empty(),
                dtstart: None,
                organizer: None,
                attendees: Seq::<AddressView>::empty(),
            }),
    {
        PimdirJournalSummary {
            uid: None,
            summary: String::new(),
            dtstart: None,
            organizer: None,
            attendees: Vec::new(),
        }
    }
}

impl TimeView {
    /// The spelling of a value's type.
    pub open spec fn value_kind(self) -> Text {
        if self.date {
            "date"@
        } else {
            "date-time"@
        }
    }
}

impl PimdirTime {
    /// The `dtstart_value` spelling: `date` or `date-time`.
    pub fn value_kind(&self) -> (kind: &'static str)
        ensures
            kind@ == self@.value_kind(),
    {
        if self.date {
            "date"
        } else {
            "date-time"
        }
    }
}

/// One `BEGIN`/`END` block, what it holds and the block around it.
struct Component {
    name: String,
    parent: Option<usize>,
    lines: Vec<PimdirContentLine>,
}

/// One `BEGIN`/`END` block, by value: its name, the place of the block
/// around it, and its own lines.
#[verifier::ext_equal]
pub struct ComponentView {
    pub name: Text,
    pub parent: Option<int>,
    pub lines: Seq<ContentLineView>,
}

impl View for Component {
    type V = ComponentView;

    closed spec fn view(&self) -> ComponentView {
        ComponentView {
            name: self.name@,
            parent: match self.parent {
                Some(parent) => Some(parent as int),
                None => None,
            },
            lines: self.lines.deep_view(),
        }
    }
}

impl DeepView for Component {
    type V = ComponentView;

    closed spec fn deep_view(&self) -> ComponentView {
        self@
    }
}

impl ComponentView {
    /// The value of the first occurrence of a property.
    pub open spec fn value(self, name: Text) -> Option<Text> {
        first_line_value(self.lines, name)
    }
}

impl Component {
    /// The value of the first occurrence of a property.
    fn value(&self, name: &str) -> (value: Option<String>)
        ensures
            value.deep_view() == self@.value(name@),
    {
        value_of(&self.lines, name)
    }

    /// The first occurrence of a property, parameters included.
    fn line(&self, name: &str) -> (line: Option<&PimdirContentLine>)
        ensures
            line_view(line) == first_line(self@.lines, name@),
    {
        first_line_of(&self.lines, name)
    }
}

/// The blocks read so far, in the order they open, and the one still open
/// that opened last.
#[verifier::ext_equal]
pub struct Blocks {
    pub all: Seq<ComponentView>,
    pub open: Option<int>,
}

/// The blocks after one more line: a `BEGIN` opens one inside the open
/// one, an `END` closes that, any other line belongs to it.
pub open spec fn block_step(blocks: Blocks, line: ContentLineView) -> Blocks {
    if line.name == "BEGIN"@ {
        Blocks {
            all: blocks.all.push(
                ComponentView {
                    name: uppercase(trim(line.value)),
                    parent: blocks.open,
                    lines: Seq::empty(),
                },
            ),
            open: Some(blocks.all.len() as int),
        }
    } else {
        match blocks.open {
            Some(at) => if line.name == "END"@ {
                Blocks { open: blocks.all[at].parent, ..blocks }
            } else {
                let block = blocks.all[at];
                Blocks {
                    all: blocks.all.update(
                        at,
                        ComponentView { lines: block.lines.push(line), ..block },
                    ),
                    ..blocks
                }
            },
            None => blocks,
        }
    }
}

/// The blocks content lines open and close.
pub open spec fn blocks_of(lines: Seq<ContentLineView>) -> Blocks
    decreases lines.len(),
{
    if lines.len() == 0 {
        Blocks { all: Seq::empty(), open: None }
    } else {
        block_step(blocks_of(lines.drop_last()), lines.last())
    }
}

/// Each block lies inside one that opened before it.
spec fn nested(all: Seq<ComponentView>) -> bool {
    forall|i: int| 0 <= i < all.len() ==> ((#[trigger] all[i]).parent matches Some(p) ==> 0 <= p < i)
}

/// Reads unfolded lines into the blocks they open and close; a block whose
/// `END` never arrives still closes at the end of the body.
fn parse(lines: &Vec<String>) -> (components: Vec<Component>)
    ensures
        components.deep_view() == blocks_of(content_lines(lines.deep_view())).all,
        nested(components.deep_view()),
{
    let ghost all = lines.deep_view();
    let mut out: Vec<Component> = Vec::new();
    let mut open: Option<usize> = None;
    let mut i: usize = 0;
    assert(blocks_of(content_lines(all.take(0))).all =~= out.deep_view());
    while i < lines.len()
        invariant
            i <= lines.len(),
            all == lines.deep_view(),
            out.deep_view() == blocks_of(content_lines(all.take(i as int))).all,
            open_view(open) == blocks_of(content_lines(all.take(i as int))).open,
            open matches Some(at) ==> at < out.len(),
            nested(out.deep_view()),
        decreases lines.len() - i,
    {
        let ghost so_far = content_lines(all.take(i as int));
        let ghost before = out.deep_view();
        proof {
            assert(all.take(i + 1).drop_last() =~= all.take(i as int));
            assert(all.take(i + 1).last() == lines@[i as int]@);
        }
        if let Some(line) = PimdirContentLine::parse(lines[i].as_str()) {
            proof {
                assert(so_far.push(line@).drop_last() =~= so_far);
            }
            if line.is("BEGIN") {
                let value = chars_of(line.value.as_str());
                let name = to_upper(text_of(trimmed(value.as_slice())).as_str());
                let block = Component { name, parent: open, lines: Vec::new() };
                assert(block@.lines =~= Seq::empty());
                open = Some(out.len());
                push_to(&mut out, block);
            } else {
                match open {
                    Some(at) => {
                        assert(before[at as int] == out@[at as int]@);
                        if line.is("END") {
                            open = out[at].parent;
                        } else {
                            let mut block = out.remove(at);
                            assert(block@ == before[at as int]);
                            push_to(&mut block.lines, line);
                            let ghost grown = block@;
                            out.insert(at, block);
                            assert(out.deep_view() =~= before.update(at as int, grown));
                        }
                    },
                    None => {},
                }
            }
        }
        i = i + 1;
    }
    assert(all.take(i as int) =~= all);
    out
}

/// A place, by value.
pub open spec fn open_view(open: Option<usize>) -> Option<int> {
    match open {
        Some(at) => Some(at as int),
        None => None,
    }
}

/// Whether a block stands directly inside one that nothing is around.
pub open spec fn is_inner(all: Seq<ComponentView>, i: int) -> bool {
    all[i].parent matches Some(p) && all[p].parent is None
}

/// Whether a block is what a summary can describe.
pub open spec fn is_candidate(all: Seq<ComponentView>, i: int) -> bool {
    is_inner(all, i) && (all[i].name == "VEVENT"@ || all[i].name == "VTODO"@ || all[i].name
        == "VJOURNAL"@)
}

/// The first place from one on that meets a condition.
pub open spec fn first_where(len: int, from: int, meets: spec_fn(int) -> bool) -> Option<int>
    decreases len - from,
{
    if from >= len {
        None
    } else if meets(from) {
        Some(from)
    } else {
        first_where(len, from + 1, meets)
    }
}

proof fn lemma_first_where(len: int, from: int, meets: spec_fn(int) -> bool)
    requires
        0 <= from,
    ensures
        first_where(len, from, meets) matches Some(at) ==> from <= at < len && meets(at),
    decreases len - from,
{
    if from < len && !meets(from) {
        lemma_first_where(len, from + 1, meets);
    }
}

/// The block a summary describes: the first `VEVENT`, `VTODO` or
/// `VJOURNAL` carrying no `RECURRENCE-ID`, else the first override.
pub open spec fn master_of(all: Seq<ComponentView>) -> Option<int> {
    match first_where(
        all.len() as int,
        0,
        |i: int| is_candidate(all, i) && all[i].value("RECURRENCE-ID"@) is None,
    ) {
        Some(at) => Some(at),
        None => first_where(all.len() as int, 0, |i: int| is_candidate(all, i)),
    }
}

/// Whether a block stands directly inside one that nothing is around.
fn inner(components: &Vec<Component>, i: usize) -> (yes: bool)
    requires
        i < components.len(),
        nested(components.deep_view()),
    ensures
        yes == is_inner(components.deep_view(), i as int),
{
    assert(components.deep_view()[i as int] == components@[i as int]@);
    match components[i].parent {
        Some(parent) => {
            assert(components.deep_view()[parent as int] == components@[parent as int]@);
            components[parent].parent.is_none()
        },
        None => false,
    }
}

/// The block a summary describes.
fn master(components: &Vec<Component>) -> (at: Option<usize>)
    requires
        nested(components.deep_view()),
    ensures
        open_view(at) == master_of(components.deep_view()),
        at matches Some(at) ==> at < components.len(),
{
    let ghost all = components.deep_view();
    let ghost whole = |i: int| is_candidate(all, i) && all[i].value("RECURRENCE-ID"@) is None;
    let ghost any = |i: int| is_candidate(all, i);
    let mut first: Option<usize> = None;
    let mut i: usize = 0;
    while i < components.len()
        invariant
            i <= components.len(),
            all == components.deep_view(),
            nested(all),
            whole == (|i: int| is_candidate(all, i) && all[i].value("RECURRENCE-ID"@) is None),
            any == (|i: int| is_candidate(all, i)),
            first_where(all.len() as int, 0, whole) == first_where(
                all.len() as int,
                i as int,
                whole,
            ),
            match first {
                Some(at) => first_where(all.len() as int, 0, any) == Some(at as int) && at < i,
                None => first_where(all.len() as int, 0, any) == first_where(
                    all.len() as int,
                    i as int,
                    any,
                ),
            },
        decreases components.len() - i,
    {
        let block = &components[i];
        assert(all[i as int] == block@);
        if inner(components, i) && (text_same(block.name.as_str(), "VEVENT") || text_same(
            block.name.as_str(),
            "VTODO",
        ) || text_same(block.name.as_str(), "VJOURNAL")) {
            assert(any(i as int));
            if block.value("RECURRENCE-ID").is_none() {
                assert(whole(i as int));
                return Some(i);
            }
            assert(!whole(i as int));
            if first.is_none() {
                first = Some(i);
            }
        } else {
            assert(!any(i as int));
            assert(!whole(i as int));
        }
        i = i + 1;
    }
    first
}

/// The first block inside an outermost one that describes no zone.
pub open spec fn first_of_any(all: Seq<ComponentView>) -> Option<int> {
    first_where(
        all.len() as int,
        0,
        |i: int| is_inner(all, i) && all[i].name != "VTIMEZONE"@,
    )
}

/// The first block inside an outermost one that describes no zone.
fn first_other(components: &Vec<Component>) -> (at: Option<usize>)
    requires
        nested(components.deep_view()),
    ensures
        open_view(at) == first_of_any(components.deep_view()),
        at matches Some(at) ==> at < components.len(),
{
    let ghost all = components.deep_view();
    let ghost meets = |i: int| is_inner(all, i) && all[i].name != "VTIMEZONE"@;
    let mut i: usize = 0;
    while i < components.len()
        invariant
            i <= components.len(),
            all == components.deep_view(),
            nested(all),
            meets == (|i: int| is_inner(all, i) && all[i].name != "VTIMEZONE"@),
            first_where(all.len() as int, 0, meets) == first_where(
                all.len() as int,
                i as int,
                meets,
            ),
        decreases components.len() - i,
    {
        let block = &components[i];
        assert(all[i as int] == block@);
        if inner(components, i) && !text_same(block.name.as_str(), "VTIMEZONE") {
            assert(meets(i as int));
            return Some(i);
        }
        assert(!meets(i as int));
        i = i + 1;
    }
    None
}

/// The zone a name stands for.
pub open spec fn zone_of(all: Seq<ComponentView>, tzid: Text) -> Option<int> {
    first_where(
        all.len() as int,
        0,
        |i: int|
            is_inner(all, i) && all[i].name == "VTIMEZONE"@ && all[i].value("TZID"@) == Some(tzid),
    )
}

/// The zone a name stands for.
fn find_zone(components: &Vec<Component>, tzid: &str) -> (at: Option<usize>)
    requires
        nested(components.deep_view()),
    ensures
        open_view(at) == zone_of(components.deep_view(), tzid@),
        at matches Some(at) ==> at < components.len(),
{
    let ghost all = components.deep_view();
    let ghost meets = |i: int|
        is_inner(all, i) && all[i].name == "VTIMEZONE"@ && all[i].value("TZID"@) == Some(tzid@);
    let mut i: usize = 0;
    while i < components.len()
        invariant
            i <= components.len(),
            all == components.deep_view(),
            nested(all),
            meets == (|i: int|
                is_inner(all, i) && all[i].name == "VTIMEZONE"@ && all[i].value("TZID"@) == Some(
                    tzid@,
                )),
            first_where(all.len() as int, 0, meets) == first_where(
                all.len() as int,
                i as int,
                meets,
            ),
        decreases components.len() - i,
    {
        let block = &components[i];
        assert(all[i as int] == block@);
        let named = match block.line("TZID") {
            Some(line) => text_same(line.value.as_str(), tzid),
            None => false,
        };
        if named && inner(components, i) && text_same(block.name.as_str(), "VTIMEZONE") {
            assert(meets(i as int));
            return Some(i);
        }
        assert(!meets(i as int));
        i = i + 1;
    }
    None
}

/// The `UNTIL` of a recurrence rule's parts.
pub open spec fn until_in(parts: Seq<Text>) -> Option<Text>
    decreases parts.len(),
{
    if parts.len() == 0 {
        None
    } else {
        match cut_once(parts[0], '=') {
            Some((name, value)) if lower_ascii(name) == lower_ascii("UNTIL"@) => Some(value),
            _ => until_in(parts.drop_first()),
        }
    }
}

/// The `UNTIL` of a recurrence rule, verbatim.
fn until(rrule: &str) -> (value: Option<String>)
    ensures
        value.deep_view() == until_in(split_on(rrule@, ';')),
{
    let chars = chars_of(rrule);
    let parts = split(chars.as_slice(), ';');
    let ghost all = pieces(parts@);
    let mut i: usize = 0;
    assert(all.skip(0) =~= all);
    while i < parts.len()
        invariant
            i <= parts.len(),
            all == pieces(parts@),
            all == split_on(rrule@, ';'),
            until_in(all) == until_in(all.skip(i as int)),
        decreases parts.len() - i,
    {
        let part = parts[i];
        proof {
            assert(all.skip(i as int)[0] == part@);
            assert(all.skip(i as int).drop_first() =~= all.skip(i + 1));
        }
        if let Some((name, value)) = split_once(part, '=') {
            if spells_any_case(name, "UNTIL") {
                return Some(text_of(value));
            }
        }
        i = i + 1;
    }
    None
}

/// A `TZOFFSETFROM` or `TZOFFSETTO` value in seconds.
pub open spec fn offset_seconds(raw: Text) -> Option<int> {
    let bytes = encode_utf8(trim(raw));
    if bytes.len() > 0 && (bytes[0] == 0x2b || bytes[0] == 0x2d) {
        match (digits_at(bytes, 1, 2), digits_at(bytes, 3, 2)) {
            (Some(hours), Some(minutes)) => {
                let seconds = match digits_at(bytes, 5, 2) {
                    Some(seconds) => seconds,
                    None => 0,
                };
                let offset = hours * 3_600 + minutes * 60 + seconds;
                Some(
                    if bytes[0] == 0x2d {
                        -offset
                    } else {
                        offset
                    },
                )
            },
            _ => None,
        }
    } else {
        None
    }
}

/// A `TZOFFSETFROM` or `TZOFFSETTO` value (`+hhmm[ss]`) in seconds.
fn offset(raw: &str) -> (seconds: Option<i64>)
    ensures
        match seconds {
            Some(seconds) => offset_seconds(raw@) == Some(seconds as int) && -400_000 <= seconds
                <= 400_000,
            None => offset_seconds(raw@) is None,
        },
{
    let chars = chars_of(raw);
    let text = text_of(trimmed(chars.as_slice()));
    let bytes = text.as_str().as_bytes();
    if bytes.len() == 0 || (bytes[0] != 0x2b && bytes[0] != 0x2d) {
        return None;
    }
    match (digits(bytes, 1, 2), digits(bytes, 3, 2)) {
        (Some(hours), Some(minutes)) => {
            let seconds: u32 = match digits(bytes, 5, 2) {
                Some(seconds) => seconds,
                None => 0,
            };
            let offset: i64 = hours as i64 * 3_600 + minutes as i64 * 60 + seconds as i64;
            if bytes[0] == 0x2d {
                Some(-offset)
            } else {
                Some(offset)
            }
        },
        _ => None,
    }
}

/// What a recurrence rule says of a yearly day, so far.
#[verifier::ext_equal]
pub struct RuleView {
    pub yearly: bool,
    pub month: Option<int>,
    pub byday: Option<Text>,
}

/// What a recurrence rule's parts say, the last of a name standing.
pub open spec fn rule_of(parts: Seq<Text>) -> RuleView
    decreases parts.len(),
{
    if parts.len() == 0 {
        RuleView { yearly: false, month: None, byday: None }
    } else {
        let before = rule_of(parts.drop_last());
        match cut_once(parts.last(), '=') {
            Some((name, value)) => {
                let name = uppercase(name);
                if name == "FREQ"@ {
                    RuleView { yearly: lower_ascii(value) == lower_ascii("YEARLY"@), ..before }
                } else if name == "BYMONTH"@ {
                    RuleView {
                        month: bounded_decimal(value, false, 0, u32::MAX as int),
                        ..before
                    }
                } else if name == "BYDAY"@ {
                    RuleView { byday: Some(uppercase(value)), ..before }
                } else {
                    before
                }
            },
            None => before,
        }
    }
}

/// The day of the week a two-letter name stands for.
pub open spec fn weekday_number(name: Text) -> Option<int> {
    if name == "SU"@ {
        Some(0)
    } else if name == "MO"@ {
        Some(1)
    } else if name == "TU"@ {
        Some(2)
    } else if name == "WE"@ {
        Some(3)
    } else if name == "TH"@ {
        Some(4)
    } else if name == "FR"@ {
        Some(5)
    } else if name == "SA"@ {
        Some(6)
    } else {
        None
    }
}

/// The `(month, ordinal, weekday)` a yearly transition rule names.
pub open spec fn yearly_rule(rrule: Text) -> Option<(int, int, int)> {
    let rule = rule_of(split_on(rrule, ';'));
    match (rule.byday, rule.month) {
        (Some(byday), Some(month)) if rule.yearly && byday.len() >= 2 => {
            let at = byday.len() - 2;
            match weekday_number(byday.skip(at)) {
                Some(weekday) => Some(
                    (
                        month,
                        match bounded_decimal(
                            byday.take(at),
                            true,
                            i32::MIN as int,
                            i32::MAX as int,
                        ) {
                            Some(ordinal) => ordinal,
                            None => 1,
                        },
                        weekday,
                    ),
                ),
                None => None,
            }
        },
        _ => None,
    }
}

/// The day of the week a two-letter name stands for.
fn weekday_of(name: &[char]) -> (day: Option<u32>)
    ensures
        match day {
            Some(day) => weekday_number(name@) == Some(day as int) && day < 7,
            None => weekday_number(name@) is None,
        },
{
    let text = text_of(name);
    let name = text.as_str();
    if text_same(name, "SU") {
        Some(0)
    } else if text_same(name, "MO") {
        Some(1)
    } else if text_same(name, "TU") {
        Some(2)
    } else if text_same(name, "WE") {
        Some(3)
    } else if text_same(name, "TH") {
        Some(4)
    } else if text_same(name, "FR") {
        Some(5)
    } else if text_same(name, "SA") {
        Some(6)
    } else {
        None
    }
}

/// The `(month, ordinal, weekday)` a yearly transition rule names.
fn yearly(rrule: &str) -> (rule: Option<(u32, i32, u32)>)
    ensures
        match rule {
            Some((month, ordinal, weekday)) => yearly_rule(rrule@) == Some(
                (month as int, ordinal as int, weekday as int),
            ) && weekday < 7,
            None => yearly_rule(rrule@) is None,
        },
{
    let chars = chars_of(rrule);
    let parts = split(chars.as_slice(), ';');
    let ghost all = pieces(parts@);
    let mut yearly = false;
    let mut month: Option<u32> = None;
    let mut byday: Option<String> = None;
    let mut i: usize = 0;
    while i < parts.len()
        invariant
            i <= parts.len(),
            all == pieces(parts@),
            rule_of(all.take(i as int)).yearly == yearly,
            match month {
                Some(month) => rule_of(all.take(i as int)).month == Some(month as int),
                None => rule_of(all.take(i as int)).month is None,
            },
            rule_of(all.take(i as int)).byday == byday.deep_view(),
        decreases parts.len() - i,
    {
        let part = parts[i];
        proof {
            assert(all.take(i + 1).drop_last() =~= all.take(i as int));
            assert(all.take(i + 1).last() == part@);
        }
        if let Some((name, value)) = split_once(part, '=') {
            let name = to_upper(text_of(name).as_str());
            if text_same(name.as_str(), "FREQ") {
                yearly = spells_any_case(value, "YEARLY");
            } else if text_same(name.as_str(), "BYMONTH") {
                month = match parse_unsigned(value, u32::MAX as u64) {
                    Some(month) => Some(month as u32),
                    None => None,
                };
            } else if text_same(name.as_str(), "BYDAY") {
                byday = Some(to_upper(text_of(value).as_str()));
            }
        }
        i = i + 1;
    }
    assert(all.take(i as int) =~= all);
    if !yearly {
        return None;
    }
    match (byday, month) {
        (Some(byday), Some(month)) => {
            let byday = chars_of(byday.as_str());
            let byday = byday.as_slice();
            if byday.len() < 2 {
                return None;
            }
            let at: usize = byday.len() - 2;
            let ordinal = slice_subrange(byday, 0, at);
            let name = slice_subrange(byday, at, byday.len());
            proof {
                assert(ordinal@ =~= byday@.take(at as int));
                assert(name@ =~= byday@.skip(at as int));
            }
            match weekday_of(name) {
                Some(weekday) => {
                    let ordinal: i32 = match parse_signed(ordinal, i32::MAX as i64) {
                        Some(ordinal) => ordinal as i32,
                        None => 1,
                    };
                    Some((month, ordinal, weekday))
                },
                None => None,
            }
        },
        _ => None,
    }
}

/// The day of the month the `n`th weekday falls on, from the end when
/// negative.
pub open spec fn nth_weekday_of(year: int, month: int, ordinal: int, weekday: int) -> Option<int> {
    let length = month_days(year, month);
    let day = if ordinal > 0 {
        1 + (7 + weekday - day_of_week(civil_days(year, month, 1))) % 7 + (ordinal - 1) * 7
    } else {
        length - (7 + day_of_week(civil_days(year, month, length)) - weekday) % 7 + (ordinal + 1) * 7
    };
    if length == 0 || ordinal == 0 || day < 1 || day > length {
        None
    } else {
        Some(day)
    }
}

/// The day found is a day of the month, and it falls on the weekday.
pub proof fn lemma_nth_weekday_falls_on_it(year: int, month: int, ordinal: int, weekday: int)
    requires
        0 <= weekday < 7,
    ensures
        nth_weekday_of(year, month, ordinal, weekday) matches Some(day) ==> {
            &&& 1 <= day <= month_days(year, month)
            &&& day_of_week(civil_days(year, month, day)) == weekday
        },
{
    let length = month_days(year, month);
    let first = civil_days(year, month, 1);
    let last = civil_days(year, month, length);
    match nth_weekday_of(year, month, ordinal, weekday) {
        Some(day) => {
            assert(civil_days(year, month, day) == first + (day - 1));
            assert(civil_days(year, month, day) == last - (length - day));
            if ordinal > 0 {
                lemma_weeks_on(first + 4, weekday, ordinal - 1);
            } else {
                lemma_weeks_back(last + 4, weekday, ordinal + 1);
            }
        },
        None => {},
    }
}

proof fn lemma_weeks_on(a: int, weekday: int, weeks: int)
    requires
        0 <= weekday < 7,
    ensures
        (a + (7 + weekday - a % 7) % 7 + weeks * 7) % 7 == weekday,
{
    let r = a % 7;
    let shift = (7 + weekday - r) % 7;
    assert(shift == if weekday >= r {
        weekday - r
    } else {
        7 + weekday - r
    });
    let whole = a / 7 + weeks + if weekday >= r {
        0int
    } else {
        1int
    };
    assert(a + shift + weeks * 7 == 7 * whole + weekday);
}

proof fn lemma_weeks_back(a: int, weekday: int, weeks: int)
    requires
        0 <= weekday < 7,
    ensures
        (a - (7 + a % 7 - weekday) % 7 + weeks * 7) % 7 == weekday,
{
    let r = a % 7;
    let shift = (7 + r - weekday) % 7;
    assert(shift == if r >= weekday {
        r - weekday
    } else {
        7 + r - weekday
    });
    let whole = a / 7 + weeks - if r >= weekday {
        0int
    } else {
        1int
    };
    assert(a - shift + weeks * 7 == 7 * whole + weekday);
}

/// The day of the month the `n`th weekday falls on, from the end when
/// negative.
fn nth_weekday(year: i32, month: u32, ordinal: i32, weekday: u32) -> (day: Option<u32>)
    requires
        weekday < 7,
    ensures
        match day {
            Some(day) => nth_weekday_of(
                year as int,
                month as int,
                ordinal as int,
                weekday as int,
            ) == Some(day as int) && day <= 31,
            None => nth_weekday_of(
                year as int,
                month as int,
                ordinal as int,
                weekday as int,
            ) is None,
        },
{
    let length: u32 = days_in_month(year, month);
    if length == 0 || ordinal == 0 {
        return None;
    }
    let day: i64 = if ordinal > 0 {
        let first: i64 = days_from_civil(year, month, 1);
        let shift: u32 = (7 + weekday - crate::summary::time::weekday(first)) % 7;
        1 + shift as i64 + (ordinal as i64 - 1) * 7
    } else {
        let last: i64 = days_from_civil(year, month, length);
        let shift: u32 = (7 + crate::summary::time::weekday(last) - weekday) % 7;
        length as i64 - shift as i64 + (ordinal as i64 + 1) * 7
    };
    if 1 <= day && day <= length as i64 {
        Some(day as u32)
    } else {
        None
    }
}

/// One offset change a `VTIMEZONE` states.
#[derive(Clone, Copy)]
struct Transition {
    at: i64,
    to: i64,
    from: i64,
}

/// One offset change, by value.
#[verifier::ext_equal]
pub struct TransitionView {
    pub at: int,
    pub to: int,
    pub from: int,
}

impl View for Transition {
    type V = TransitionView;

    closed spec fn view(&self) -> TransitionView {
        TransitionView { at: self.at as int, to: self.to as int, from: self.from as int }
    }
}

impl DeepView for Transition {
    type V = TransitionView;

    closed spec fn deep_view(&self) -> TransitionView {
        self@
    }
}

/// The change a rule puts in one year.
pub open spec fn yearly_transition(
    rule: (int, int, int),
    year: int,
    hour: int,
    minute: int,
    second: int,
    from: int,
    to: int,
) -> Seq<TransitionView> {
    match nth_weekday_of(year, rule.0, rule.1, rule.2) {
        Some(day) => seq![
            TransitionView {
                at: unix_seconds(year, rule.0, day, hour, minute, second) - from,
                to,
                from,
            },
        ],
        None => Seq::empty(),
    }
}

/// The changes one `STANDARD` or `DAYLIGHT` block states over the years
/// around one.
pub open spec fn changes_of(change: ComponentView, year: int) -> Seq<TransitionView> {
    let none = Seq::<TransitionView>::empty();
    match (change.value("TZOFFSETFROM"@), change.value("TZOFFSETTO"@), change.value("DTSTART"@)) {
        (Some(from), Some(to), Some(start)) => {
            let bytes = encode_utf8(start);
            match (
                (offset_seconds(from), offset_seconds(to)),
                (digits_at(bytes, 9, 2), digits_at(bytes, 11, 2), digits_at(bytes, 13, 2)),
            ) {
                ((Some(from), Some(to)), (Some(hour), Some(minute), Some(second))) => {
                    let rule = match change.value("RRULE"@) {
                        Some(rrule) => yearly_rule(rrule),
                        None => None,
                    };
                    match rule {
                        Some(rule) => yearly_transition(
                            rule,
                            year - 1,
                            hour,
                            minute,
                            second,
                            from,
                            to,
                        ) + yearly_transition(rule, year, hour, minute, second, from, to)
                            + yearly_transition(rule, year + 1, hour, minute, second, from, to),
                        None => match (
                            digits_at(bytes, 0, 4),
                            digits_at(bytes, 4, 2),
                            digits_at(bytes, 6, 2),
                        ) {
                            (Some(year), Some(month), Some(day)) => seq![
                                TransitionView {
                                    at: unix_seconds(year, month, day, hour, minute, second) - from,
                                    to,
                                    from,
                                },
                            ],
                            _ => none,
                        },
                    }
                },
                _ => none,
            }
        },
        _ => none,
    }
}

/// Whether a block states an offset change of a zone.
pub open spec fn is_change(change: ComponentView, zone: int) -> bool {
    change.parent == Some(zone) && (change.name == "STANDARD"@ || change.name == "DAYLIGHT"@)
}

/// The changes the first blocks state of a zone, in document order.
pub open spec fn changes_in(all: Seq<ComponentView>, zone: int, year: int) -> Seq<TransitionView>
    decreases all.len(),
{
    if all.len() == 0 {
        Seq::empty()
    } else if is_change(all.last(), zone) {
        changes_in(all.drop_last(), zone, year) + changes_of(all.last(), year)
    } else {
        changes_in(all.drop_last(), zone, year)
    }
}

/// A list in order of time with one more change, after those of its time.
pub open spec fn placed(sorted: Seq<TransitionView>, change: TransitionView) -> Seq<TransitionView>
    decreases sorted.len(),
{
    if sorted.len() > 0 && sorted.last().at > change.at {
        placed(sorted.drop_last(), change).push(sorted.last())
    } else {
        sorted.push(change)
    }
}

/// Changes in order of time, those of one time in the order given.
pub open spec fn in_time_order(changes: Seq<TransitionView>) -> Seq<TransitionView>
    decreases changes.len(),
{
    if changes.len() == 0 {
        Seq::empty()
    } else {
        placed(in_time_order(changes.drop_last()), changes.last())
    }
}

/// Whether a list is in order of time.
pub open spec fn is_in_time_order(list: Seq<TransitionView>) -> bool {
    forall|i: int, j: int| 0 <= i <= j < list.len() ==> (#[trigger] list[i]).at <= (#[trigger] list[j]).at
}

proof fn lemma_placed(sorted: Seq<TransitionView>, change: TransitionView)
    requires
        is_in_time_order(sorted),
    ensures
        is_in_time_order(placed(sorted, change)),
        placed(sorted, change).len() == sorted.len() + 1,
        placed(sorted, change).last().at == if sorted.len() > 0 && sorted.last().at > change.at {
            sorted.last().at
        } else {
            change.at
        },
        placed(sorted, change).to_multiset() == sorted.to_multiset().insert(change),
    decreases sorted.len(),
{
    broadcast use vstd::seq_lib::group_to_multiset_ensures;

    let out = placed(sorted, change);
    if sorted.len() > 0 && sorted.last().at > change.at {
        let before = sorted.drop_last();
        assert(is_in_time_order(before));
        lemma_placed(before, change);
        assert forall|i: int, j: int| 0 <= i <= j < out.len() implies (#[trigger] out[i]).at <= (
        #[trigger] out[j]).at by {
            if j == out.len() - 1 && i < j {
                let inner = placed(before, change);
                assert(inner[i].at <= inner.last().at);
            }
        }
        assert(sorted =~= before.push(sorted.last()));
        assert(out.to_multiset() =~= sorted.to_multiset().insert(change));
    } else {
        assert forall|i: int, j: int| 0 <= i <= j < out.len() implies (#[trigger] out[i]).at <= (
        #[trigger] out[j]).at by {
            if j == out.len() - 1 && i < j {
                assert(sorted[i].at <= sorted.last().at);
            }
        }
    }
}

/// Ordering changes by time loses and invents none.
pub proof fn lemma_time_order(changes: Seq<TransitionView>)
    ensures
        is_in_time_order(in_time_order(changes)),
        in_time_order(changes).to_multiset() == changes.to_multiset(),
        in_time_order(changes).len() == changes.len(),
    decreases changes.len(),
{
    broadcast use vstd::seq_lib::group_to_multiset_ensures;

    if changes.len() > 0 {
        lemma_time_order(changes.drop_last());
        lemma_placed(in_time_order(changes.drop_last()), changes.last());
        assert(changes =~= changes.drop_last().push(changes.last()));
    } else {
        assert(changes =~= Seq::empty());
    }
}

/// Every change keeps its times within bounds no zone leaves.
spec fn bounded(list: Seq<TransitionView>) -> bool {
    forall|i: int|
        0 <= i < list.len() ==> -400_000 <= (#[trigger] list[i]).to <= 400_000 && -400_000
            <= list[i].from <= 400_000
}

/// Puts a change in its place.
fn place(sorted: &mut Vec<Transition>, change: Transition)
    requires
        bounded(old(sorted).deep_view()),
        -400_000 <= change.to <= 400_000,
        -400_000 <= change.from <= 400_000,
    ensures
        final(sorted).deep_view() == placed(old(sorted).deep_view(), change@),
        bounded(final(sorted).deep_view()),
{
    let ghost before = sorted.deep_view();
    let mut at: usize = sorted.len();
    assert(before.take(at as int) =~= before);
    assert(before.skip(at as int) =~= Seq::empty());
    assert(placed(before, change@) =~= placed(before.take(at as int), change@) + before.skip(
        at as int,
    ));
    while at > 0 && sorted[at - 1].at > change.at
        invariant
            at <= sorted.len(),
            before == sorted.deep_view(),
            placed(before, change@) == placed(before.take(at as int), change@) + before.skip(
                at as int,
            ),
        decreases at,
    {
        proof {
            let head = before.take(at as int);
            assert(head.drop_last() =~= before.take(at - 1));
            assert(head.last() == sorted@[at - 1]@);
            assert(placed(head, change@) + before.skip(at as int) =~= placed(
                before.take(at - 1),
                change@,
            ) + before.skip(at - 1));
        }
        at = at - 1;
    }
    proof {
        let head = before.take(at as int);
        if at > 0 {
            assert(head.last() == sorted@[at - 1]@);
        }
        assert(placed(head, change@) == head.push(change@));
    }
    sorted.insert(at, change);
    assert(sorted.deep_view() =~= placed(before, change@));
    assert forall|i: int| 0 <= i < sorted.deep_view().len() implies -400_000 <= (
    #[trigger] sorted.deep_view()[i]).to <= 400_000 && -400_000 <= sorted.deep_view()[i].from
        <= 400_000 by {
        if i < at {
            assert(sorted.deep_view()[i] == before[i]);
        } else if i > at {
            assert(sorted.deep_view()[i] == before[i - 1]);
        }
    }
}

/// Changes put in their places one after another.
spec fn placed_all(sorted: Seq<TransitionView>, changes: Seq<TransitionView>) -> Seq<TransitionView>
    decreases changes.len(),
{
    if changes.len() == 0 {
        sorted
    } else {
        placed(placed_all(sorted, changes.drop_last()), changes.last())
    }
}

proof fn lemma_placed_all(a: Seq<TransitionView>, b: Seq<TransitionView>)
    ensures
        in_time_order(a + b) == placed_all(in_time_order(a), b),
    decreases b.len(),
{
    if b.len() == 0 {
        assert(a + b =~= a);
    } else {
        lemma_placed_all(a, b.drop_last());
        assert((a + b).drop_last() =~= a + b.drop_last());
        assert((a + b).last() == b.last());
    }
}

/// Adds the change a rule puts in one year.
fn place_yearly(
    sorted: &mut Vec<Transition>,
    rule: (u32, i32, u32),
    year: i32,
    hour: u32,
    minute: u32,
    second: u32,
    from: i64,
    to: i64,
)
    requires
        rule.2 < 7,
        bounded(old(sorted).deep_view()),
        -400_000 <= to <= 400_000,
        -400_000 <= from <= 400_000,
    ensures
        final(sorted).deep_view() == placed_all(
            old(sorted).deep_view(),
            yearly_transition(
                (rule.0 as int, rule.1 as int, rule.2 as int),
                year as int,
                hour as int,
                minute as int,
                second as int,
                from as int,
                to as int,
            ),
        ),
        bounded(final(sorted).deep_view()),
{
    let ghost before = sorted.deep_view();
    if let Some(day) = nth_weekday(year, rule.0, rule.1, rule.2) {
        let at: i64 = unix(year, rule.0, day, hour, minute, second) - from;
        let change = Transition { at, to, from };
        place(sorted, change);
        proof {
            let one = seq![change@];
            assert(one.drop_last() =~= Seq::empty());
            assert(placed_all(before, one.drop_last()) == before);
            assert(one.last() == change@);
        }
    }
}

/// Adds the changes one block states.
fn place_changes(sorted: &mut Vec<Transition>, change: &Component, year: i32)
    requires
        bounded(old(sorted).deep_view()),
        0 <= year <= 9_999,
    ensures
        final(sorted).deep_view() == placed_all(
            old(sorted).deep_view(),
            changes_of(change@, year as int),
        ),
        bounded(final(sorted).deep_view()),
{
    let ghost before = sorted.deep_view();
    let (from, to, start) = match (
        change.line("TZOFFSETFROM"),
        change.line("TZOFFSETTO"),
        change.line("DTSTART"),
    ) {
        (Some(from), Some(to), Some(start)) => (from, to, start),
        _ => {
            return ;
        },
    };
    let bytes = start.value.as_str().as_bytes();
    let (from, to) = match (offset(from.value.as_str()), offset(to.value.as_str())) {
        (Some(from), Some(to)) => (from, to),
        _ => {
            return ;
        },
    };
    let (hour, minute, second) = match (
        digits(bytes, 9, 2),
        digits(bytes, 11, 2),
        digits(bytes, 13, 2),
    ) {
        (Some(hour), Some(minute), Some(second)) => (hour, minute, second),
        _ => {
            return ;
        },
    };
    let rule = match change.line("RRULE") {
        Some(rrule) => yearly(rrule.value.as_str()),
        None => None,
    };
    match rule {
        Some(rule) => {
            let ghost r = (rule.0 as int, rule.1 as int, rule.2 as int);
            let ghost of = |y: int|
                yearly_transition(
                    r,
                    y,
                    hour as int,
                    minute as int,
                    second as int,
                    from as int,
                    to as int,
                );
            place_yearly(sorted, rule, year - 1, hour, minute, second, from, to);
            place_yearly(sorted, rule, year, hour, minute, second, from, to);
            place_yearly(sorted, rule, year + 1, hour, minute, second, from, to);
            proof {
                lemma_placed_all_joins(before, of(year - 1), of(year as int));
                lemma_placed_all_joins(before, of(year - 1) + of(year as int), of(year + 1));
            }
        },
        None => {
            if let (Some(y), Some(month), Some(day)) = (
                digits(bytes, 0, 4),
                digits(bytes, 4, 2),
                digits(bytes, 6, 2),
            ) {
                let at: i64 = unix(y as i32, month, day, hour, minute, second) - from;
                let change = Transition { at, to, from };
                place(sorted, change);
                proof {
                    let one = seq![change@];
                    assert(one.drop_last() =~= Seq::empty());
                    assert(placed_all(before, one.drop_last()) == before);
                    assert(one.last() == change@);
                }
            }
        },
    }
}

proof fn lemma_placed_all_joins(
    sorted: Seq<TransitionView>,
    a: Seq<TransitionView>,
    b: Seq<TransitionView>,
)
    ensures
        placed_all(sorted, a + b) == placed_all(placed_all(sorted, a), b),
    decreases b.len(),
{
    if b.len() == 0 {
        assert(a + b =~= a);
    } else {
        lemma_placed_all_joins(sorted, a, b.drop_last());
        assert((a + b).drop_last() =~= a + b.drop_last());
        assert((a + b).last() == b.last());
    }
}

/// The transitions a zone states over the years around one, in order.
pub open spec fn transitions_of(all: Seq<ComponentView>, zone: int, year: int) -> Seq<
    TransitionView,
> {
    in_time_order(changes_in(all, zone, year))
}

/// The transitions a zone states over the years around `year`.
///
/// It reads `FREQ=YEARLY` with `BYMONTH` and `BYDAY`, what every zone a
/// real calendar writes carries; a subcomponent whose rule this cannot
/// read contributes its `DTSTART` alone.
fn transitions(components: &Vec<Component>, zone: usize, year: i32) -> (list: Vec<Transition>)
    requires
        0 <= year <= 9_999,
    ensures
        list.deep_view() == transitions_of(components.deep_view(), zone as int, year as int),
        bounded(list.deep_view()),
{
    let ghost all = components.deep_view();
    let mut list: Vec<Transition> = Vec::new();
    let mut i: usize = 0;
    assert(list.deep_view() =~= in_time_order(changes_in(all.take(0), zone as int, year as int)));
    while i < components.len()
        invariant
            i <= components.len(),
            0 <= year <= 9_999,
            all == components.deep_view(),
            list.deep_view() == in_time_order(
                changes_in(all.take(i as int), zone as int, year as int),
            ),
            bounded(list.deep_view()),
        decreases components.len() - i,
    {
        let block = &components[i];
        proof {
            assert(all.take(i + 1).drop_last() =~= all.take(i as int));
            assert(all.take(i + 1).last() == block@);
        }
        let child = match block.parent {
            Some(parent) => parent == zone,
            None => false,
        };
        if child && (text_same(block.name.as_str(), "STANDARD") || text_same(
            block.name.as_str(),
            "DAYLIGHT",
        )) {
            assert(is_change(block@, zone as int));
            place_changes(&mut list, block, year);
            proof {
                lemma_placed_all(
                    changes_in(all.take(i as int), zone as int, year as int),
                    changes_of(block@, year as int),
                );
            }
        } else {
            assert(!is_change(block@, zone as int));
        }
        i = i + 1;
    }
    assert(all.take(i as int) =~= all);
    list
}

/// Values without those that stood before.
pub open spec fn distinct(values: Seq<int>) -> Seq<int>
    decreases values.len(),
{
    if values.len() == 0 {
        values
    } else {
        let before = distinct(values.drop_last());
        if before.contains(values.last()) {
            before
        } else {
            before.push(values.last())
        }
    }
}

/// The offsets transitions put in effect, the first one's origin ahead.
pub open spec fn offsets_of(list: Seq<TransitionView>) -> Seq<int> {
    distinct(
        if list.len() > 0 {
            seq![list[0].from] + list.map_values(|change: TransitionView| change.to)
        } else {
            Seq::empty()
        },
    )
}

/// What integers stand for.
pub open spec fn numbers(list: Seq<i64>) -> Seq<int> {
    list.map_values(|n: i64| n as int)
}

/// Adds an offset that is not there yet.
fn add_offset(offsets: &mut Vec<i64>, offset: i64)
    ensures
        numbers(final(offsets)@) == if numbers(old(offsets)@).contains(offset as int) {
            numbers(old(offsets)@)
        } else {
            numbers(old(offsets)@).push(offset as int)
        },
        final(offsets)@ == old(offsets)@ || final(offsets)@ == old(offsets)@.push(offset),
        final(offsets)@.len() > 0,
{
    let ghost before = offsets@;
    let mut i: usize = 0;
    while i < offsets.len()
        invariant
            i <= offsets.len(),
            offsets@ == before,
            forall|j: int| 0 <= j < i ==> before[j] != offset,
        decreases offsets.len() - i,
    {
        if offsets[i] == offset {
            assert(numbers(before)[i as int] == offset as int);
            return ;
        }
        i = i + 1;
    }
    proof {
        if numbers(before).contains(offset as int) {
            let j = choose|j: int| 0 <= j < before.len() && numbers(before)[j] == offset as int;
            assert(before[j] == offset);
        }
    }
    offsets.push(offset);
    assert(numbers(offsets@) =~= numbers(before).push(offset as int));
}

/// Every offset the transitions put in effect, the first one's origin
/// included.
fn offsets(list: &Vec<Transition>) -> (offsets: Vec<i64>)
    requires
        bounded(list.deep_view()),
    ensures
        numbers(offsets@) == offsets_of(list.deep_view()),
        forall|i: int| 0 <= i < offsets@.len() ==> -400_000 <= #[trigger] offsets@[i] <= 400_000,
        list@.len() > 0 ==> offsets@.len() > 0,
{
    let ghost view = list.deep_view();
    let mut out: Vec<i64> = Vec::new();
    if list.len() == 0 {
        assert(numbers(out@) =~= Seq::empty());
        return out;
    }
    let ghost all = seq![view[0].from] + view.map_values(|change: TransitionView| change.to);
    assert(view[0] == list@[0]@);
    assert(numbers(out@) =~= distinct(all.take(0)));
    assert(all.take(1).drop_last() =~= all.take(0));
    assert(all.take(1).last() == list@[0].from);
    add_offset(&mut out, list[0].from);
    let mut i: usize = 0;
    while i < list.len()
        invariant
            i <= list.len(),
            view == list.deep_view(),
            bounded(view),
            all == seq![view[0].from] + view.map_values(|change: TransitionView| change.to),
            numbers(out@) == distinct(all.take(i + 1)),
            out@.len() > 0,
            forall|j: int| 0 <= j < out@.len() ==> -400_000 <= #[trigger] out@[j] <= 400_000,
        decreases list.len() - i,
    {
        proof {
            assert(view[i as int] == list@[i as int]@);
            assert(all.take(i + 2).drop_last() =~= all.take(i + 1));
            assert(all.take(i + 2).last() == list@[i as int].to);
        }
        add_offset(&mut out, list[i].to);
        i = i + 1;
    }
    assert(all.take(i + 1) =~= all);
    out
}

/// The offset in effect at an instant.
pub open spec fn offset_at(list: Seq<TransitionView>, instant: int) -> int
    decreases list.len(),
{
    if list.len() == 0 {
        0
    } else if list.last().at <= instant {
        list.last().to
    } else if list.len() == 1 {
        list[0].from
    } else {
        offset_at(list.drop_last(), instant)
    }
}

/// The offset in effect at an instant.
fn in_effect(list: &Vec<Transition>, instant: i64) -> (offset: i64)
    ensures
        offset == offset_at(list.deep_view(), instant as int),
{
    let ghost view = list.deep_view();
    let mut i: usize = list.len();
    assert(view.take(i as int) =~= view);
    while i > 0
        invariant
            i <= list.len(),
            view == list.deep_view(),
            i == 0 ==> list@.len() == 0,
            offset_at(view, instant as int) == offset_at(view.take(i as int), instant as int),
        decreases i,
    {
        proof {
            assert(view.take(i as int).last() == list@[i - 1]@);
            assert(view.take(i as int).drop_last() =~= view.take(i - 1));
        }
        if list[i - 1].at <= instant {
            return list[i - 1].to;
        }
        if i == 1 {
            assert(view.take(1)[0] == list@[0]@);
            return list[0].from;
        }
        i = i - 1;
    }
    0
}

/// The smaller of an instant and the one so far.
pub open spec fn earlier(so_far: Option<int>, instant: int) -> Option<int> {
    match so_far {
        Some(other) if other < instant => Some(other),
        _ => Some(instant),
    }
}

/// The earliest instant a wall time names under some of the offsets: all
/// of them, or those in effect at the instant they give.
pub open spec fn earliest(
    offsets: Seq<int>,
    list: Seq<TransitionView>,
    local: int,
    valid: bool,
) -> Option<int>
    decreases offsets.len(),
{
    if offsets.len() == 0 {
        None
    } else {
        let before = earliest(offsets.drop_last(), list, local, valid);
        let instant = local - offsets.last();
        if !valid || offset_at(list, instant) == offsets.last() {
            earlier(before, instant)
        } else {
            before
        }
    }
}

proof fn lemma_earliest(
    offsets: Seq<int>,
    list: Seq<TransitionView>,
    local: int,
    valid: bool,
)
    ensures
        match earliest(offsets, list, local, valid) {
            Some(instant) => {
                &&& offsets.contains(local - instant)
                &&& valid ==> offset_at(list, instant) == local - instant
                &&& forall|i: int|
                    0 <= i < offsets.len() && (!valid || offset_at(list, local - offsets[i])
                        == offsets[i]) ==> instant <= local - #[trigger] offsets[i]
            },
            None => forall|i: int|
                0 <= i < offsets.len() ==> valid && offset_at(list, local - #[trigger] offsets[i])
                    != offsets[i],
        },
    decreases offsets.len(),
{
    if offsets.len() > 0 {
        let before = offsets.drop_last();
        lemma_earliest(before, list, local, valid);
        assert forall|i: int| 0 <= i < before.len() implies #[trigger] before[i] == offsets[i] by {}
        assert(offsets.contains(offsets.last())) by {
            assert(offsets[offsets.len() - 1] == offsets.last());
        }
        match earliest(before, list, local, valid) {
            Some(instant) => {
                let i = choose|i: int| 0 <= i < before.len() && before[i] == local - instant;
                assert(offsets[i] == local - instant);
            },
            None => {},
        }
        assert forall|i: int| 0 <= i < offsets.len() implies (if i < offsets.len() - 1 {
            #[trigger] offsets[i] == before[i]
        } else {
            offsets[i] == offsets.last()
        }) by {}
    }
}

/// A wall time a zone repeats or skips names the earliest instant: the
/// earliest of those its offsets are in effect at, or of all its offsets
/// where none is, which is the greatest of the offsets in question.
pub proof fn lemma_a_wall_time_names_its_earliest_instant(
    list: Seq<TransitionView>,
    local: int,
    i: int,
)
    requires
        list.len() > 0,
        0 <= i < offsets_of(list).len(),
    ensures
        offsets_of(list).contains(local - resolved(list, local)),
        offset_at(list, local - offsets_of(list)[i]) == offsets_of(list)[i] ==> {
            &&& resolved(list, local) <= local - offsets_of(list)[i]
            &&& offset_at(list, resolved(list, local)) == local - resolved(list, local)
        },
        (forall|j: int|
            0 <= j < offsets_of(list).len() ==> offset_at(
                list,
                local - #[trigger] offsets_of(list)[j],
            ) != offsets_of(list)[j]) ==> resolved(list, local) <= local - offsets_of(list)[i],
{
    lemma_earliest(offsets_of(list), list, local, true);
    lemma_earliest(offsets_of(list), list, local, false);
    let offsets = offsets_of(list);
    match earliest(offsets, list, local, true) {
        Some(instant) => {
            let j = choose|j: int| 0 <= j < offsets.len() && offsets[j] == local - instant;
            assert(local - offsets[j] == instant);
        },
        None => {},
    }
}

/// The instant a wall time names under the transitions of its zone.
pub open spec fn resolved(list: Seq<TransitionView>, local: int) -> int {
    if list.len() == 0 {
        local
    } else {
        match (
            earliest(offsets_of(list), list, local, true),
            earliest(offsets_of(list), list, local, false),
        ) {
            (Some(instant), _) => instant,
            (None, Some(instant)) => instant,
            (None, None) => local,
        }
    }
}

/// The instant a wall time names in a zone the resource carries.
///
/// An ambiguous hour takes the offset in effect before the transition and
/// a nonexistent one the offset after it, both the numerically greater
/// offset and the earlier instant, so one rule serves both.
fn resolve(components: &Vec<Component>, zone: usize, local: i64, year: i32) -> (instant: i64)
    requires
        0 <= year <= 9_999,
        -100_000_000_000_000_000 <= local <= 100_000_000_000_000_000,
    ensures
        instant == resolved(
            transitions_of(components.deep_view(), zone as int, year as int),
            local as int,
        ),
{
    let list = transitions(components, zone, year);
    let ghost view = list.deep_view();
    if list.len() == 0 {
        return local;
    }
    let offsets = offsets(&list);
    let ghost all = numbers(offsets@);
    let mut valid: Option<i64> = None;
    let mut first: Option<i64> = None;
    let mut i: usize = 0;
    while i < offsets.len()
        invariant
            i <= offsets.len(),
            view == list.deep_view(),
            all == numbers(offsets@),
            forall|j: int|
                0 <= j < offsets@.len() ==> -400_000 <= #[trigger] offsets@[j] <= 400_000,
            -100_000_000_000_000_000 <= local <= 100_000_000_000_000_000,
            number(valid) == earliest(all.take(i as int), view, local as int, true),
            number(first) == earliest(all.take(i as int), view, local as int, false),
        decreases offsets.len() - i,
    {
        proof {
            assert(all.take(i + 1).drop_last() =~= all.take(i as int));
            assert(all.take(i + 1).last() == offsets@[i as int]);
        }
        let instant: i64 = local - offsets[i];
        first = sooner(first, instant);
        if in_effect(&list, instant) == offsets[i] {
            valid = sooner(valid, instant);
        }
        i = i + 1;
    }
    assert(all.take(i as int) =~= all);
    match valid {
        Some(instant) => instant,
        None => match first {
            Some(instant) => instant,
            None => local,
        },
    }
}

/// An optional number, by value.
pub open spec fn number(n: Option<i64>) -> Option<int> {
    match n {
        Some(n) => Some(n as int),
        None => None,
    }
}

/// The smaller of an instant and the one so far.
fn sooner(so_far: Option<i64>, instant: i64) -> (out: Option<i64>)
    ensures
        number(out) == earlier(number(so_far), instant as int),
{
    match so_far {
        Some(other) => if other < instant {
            Some(other)
        } else {
            Some(instant)
        },
        None => Some(instant),
    }
}

/// The instant a start names.
pub open spec fn start_instant(time: TimeView, all: Seq<ComponentView>) -> Option<Text> {
    let bytes = encode_utf8(time.value);
    match (digits_at(bytes, 0, 4), digits_at(bytes, 4, 2), digits_at(bytes, 6, 2)) {
        (Some(year), Some(month), Some(day)) => if time.date || bytes.len() == 8 {
            Some(instant_text(unix_seconds(year, month, day, 0, 0, 0)))
        } else if bytes.len() > 8 && bytes[8] == 0x54 {
            match (digits_at(bytes, 9, 2), digits_at(bytes, 11, 2), digits_at(bytes, 13, 2)) {
                (Some(hour), Some(minute), Some(second)) => {
                    let local = unix_seconds(year, month, day, hour, minute, second);
                    let zone = match time.tzid {
                        Some(tzid) => zone_of(all, tzid),
                        None => None,
                    };
                    if bytes.len() > 15 && bytes[15] == 0x5a {
                        Some(instant_text(local))
                    } else {
                        match zone {
                            Some(zone) => Some(
                                instant_text(resolved(transitions_of(all, zone, year), local)),
                            ),
                            None => Some(instant_text(local)),
                        }
                    }
                },
                _ => None,
            }
        } else {
            None
        },
        _ => None,
    }
}

/// The instant a start names, normalised to RFC 3339 in UTC.
///
/// A UTC date-time is an instant already; a zoned one resolves through the
/// resource's own `VTIMEZONE`; a zone that will not resolve reads as
/// floating; a date-only value reads as midnight UTC; a floating one reads
/// its wall time as UTC.
fn instant(time: &PimdirTime, components: &Vec<Component>) -> (text: Option<String>)
    requires
        nested(components.deep_view()),
    ensures
        text.deep_view() == start_instant(time@, components.deep_view()),
{
    let bytes = time.value.as_str().as_bytes();
    let (year, month, day) = match (
        digits(bytes, 0, 4),
        digits(bytes, 4, 2),
        digits(bytes, 6, 2),
    ) {
        (Some(year), Some(month), Some(day)) => (year as i32, month, day),
        _ => {
            return None;
        },
    };
    if time.date || bytes.len() == 8 {
        return Some(rfc3339(unix(year, month, day, 0, 0, 0)));
    }
    if bytes.len() <= 8 || bytes[8] != 0x54 {
        return None;
    }
    let (hour, minute, second) = match (
        digits(bytes, 9, 2),
        digits(bytes, 11, 2),
        digits(bytes, 13, 2),
    ) {
        (Some(hour), Some(minute), Some(second)) => (hour, minute, second),
        _ => {
            return None;
        },
    };
    let local: i64 = unix(year, month, day, hour, minute, second);
    if bytes.len() > 15 && bytes[15] == 0x5a {
        return Some(rfc3339(local));
    }
    let zone = match &time.tzid {
        Some(tzid) => find_zone(components, tzid.as_str()),
        None => None,
    };
    match zone {
        Some(zone) => Some(rfc3339(resolve(components, zone, local, year))),
        None => Some(rfc3339(local)),
    }
}

/// A time property with the parameters the summary keeps.
pub open spec fn time_view(line: ContentLineView) -> TimeView {
    TimeView {
        value: line.value,
        tzid: first_value(line.params, "TZID"@),
        date: match first_value(line.params, "VALUE"@) {
            Some(value) => lower_ascii(value) == lower_ascii("DATE"@),
            None => false,
        },
    }
}

/// A time property with the parameters the summary keeps.
fn time_of(line: &PimdirContentLine) -> (time: PimdirTime)
    ensures
        time@ == time_view(line@),
{
    PimdirTime {
        value: line.value.clone(),
        tzid: match line.param("TZID") {
            Some(tzid) => Some(tzid.to_owned()),
            None => None,
        },
        date: match line.param("VALUE") {
            Some(value) => {
                let value = chars_of(value);
                spells_any_case(value.as_slice(), "DATE")
            },
            None => false,
        },
    }
}

/// An `ORGANIZER` or `ATTENDEE`.
pub open spec fn person_view(line: ContentLineView) -> AddressView {
    AddressView {
        address: canonical_address(line.value),
        name: unescaped_option(first_value(line.params, "CN"@)),
    }
}

/// An `ORGANIZER` or `ATTENDEE`: the `mailto:` stripped and the value
/// canonical, the `CN` parameter decoded as the name.
fn person(line: &PimdirContentLine) -> (person: PimdirAddress)
    ensures
        person@ == person_view(line@),
{
    PimdirAddress {
        address: PimdirAddress::canonical(line.value.as_str()),
        name: match line.param("CN") {
            Some(name) => Some(unescape(name)),
            None => None,
        },
    }
}

/// The attendees among lines, in document order.
pub open spec fn attendees_of(lines: Seq<ContentLineView>) -> Seq<AddressView>
    decreases lines.len(),
{
    if lines.len() == 0 {
        Seq::empty()
    } else if lines.last().name == "ATTENDEE"@ {
        attendees_of(lines.drop_last()).push(person_view(lines.last()))
    } else {
        attendees_of(lines.drop_last())
    }
}

/// The attendees among lines, in document order.
fn attendees(lines: &Vec<PimdirContentLine>) -> (people: Vec<PimdirAddress>)
    ensures
        people.deep_view() == attendees_of(lines.deep_view()),
{
    let ghost all = lines.deep_view();
    let mut people: Vec<PimdirAddress> = Vec::new();
    let mut i: usize = 0;
    assert(people.deep_view() =~= attendees_of(all.take(0)));
    while i < lines.len()
        invariant
            i <= lines.len(),
            all == lines.deep_view(),
            people.deep_view() == attendees_of(all.take(i as int)),
        decreases lines.len() - i,
    {
        proof {
            assert(all.take(i + 1).drop_last() =~= all.take(i as int));
            assert(all.take(i + 1).last() == lines@[i as int]@);
        }
        if lines[i].is("ATTENDEE") {
            push_to(&mut people, person(&lines[i]));
        }
        i = i + 1;
    }
    assert(all.take(i as int) =~= all);
    people
}

/// The time property under a name.
pub open spec fn time_in(lines: Seq<ContentLineView>, name: Text) -> Option<TimeView> {
    match first_line(lines, name) {
        Some(line) => Some(time_view(line)),
        None => None,
    }
}

/// The person under a name.
pub open spec fn person_in(lines: Seq<ContentLineView>, name: Text) -> Option<AddressView> {
    match first_line(lines, name) {
        Some(line) => Some(person_view(line)),
        None => None,
    }
}

/// The `UNTIL` of the rule lines carry.
pub open spec fn until_of(lines: Seq<ContentLineView>) -> Option<Text> {
    match first_line_value(lines, "RRULE"@) {
        Some(rrule) => until_in(split_on(rrule, ';')),
        None => None,
    }
}

/// Whether lines carry an `RRULE` or `RDATE`.
pub open spec fn recurs(lines: Seq<ContentLineView>) -> bool {
    first_line_value(lines, "RRULE"@) is Some || first_line_value(lines, "RDATE"@) is Some
}

/// The instant an optional time names.
pub open spec fn key_of(time: Option<TimeView>, all: Seq<ComponentView>) -> Option<Text> {
    match time {
        Some(time) => start_instant(time, all),
        None => None,
    }
}

/// The summary of an event.
pub open spec fn event_summary(master: ComponentView) -> EventSummaryView {
    EventSummaryView {
        uid: master.value("UID"@),
        summary: or_empty(unescaped_option(master.value("SUMMARY"@))),
        location: unescaped_option(master.value("LOCATION"@)),
        dtstart: time_in(master.lines, "DTSTART"@),
        dtend: master.value("DTEND"@),
        recurring: Some(recurs(master.lines)),
        until: until_of(master.lines),
        organizer: person_in(master.lines, "ORGANIZER"@),
        attendees: attendees_of(master.lines),
    }
}

/// The summary of a task.
pub open spec fn task_summary(master: ComponentView) -> TaskSummaryView {
    TaskSummaryView {
        uid: master.value("UID"@),
        summary: or_empty(unescaped_option(master.value("SUMMARY"@))),
        dtstart: time_in(master.lines, "DTSTART"@),
        due: time_in(master.lines, "DUE"@),
        status: match master.value("STATUS"@) {
            Some(status) => Some(uppercase(trim(status))),
            None => None,
        },
        completed: master.value("COMPLETED"@),
        percent: match master.value("PERCENT-COMPLETE"@) {
            Some(percent) => match bounded_decimal(
                trim(percent),
                true,
                i64::MIN as int,
                i64::MAX as int,
            ) {
                Some(percent) => Some(percent as i64),
                None => None,
            },
            None => None,
        },
        recurring: Some(recurs(master.lines)),
        until: until_of(master.lines),
        organizer: person_in(master.lines, "ORGANIZER"@),
        attendees: attendees_of(master.lines),
    }
}

/// The summary of a journal entry.
pub open spec fn journal_summary(master: ComponentView) -> JournalSummaryView {
    JournalSummaryView {
        uid: master.value("UID"@),
        summary: or_empty(unescaped_option(master.value("SUMMARY"@))),
        dtstart: time_in(master.lines, "DTSTART"@),
        organizer: person_in(master.lines, "ORGANIZER"@),
        attendees: attendees_of(master.lines),
    }
}

/// The summary of the master and the instant it sorts by: a task by its
/// due time, else its start, anything else by its start.
pub open spec fn master_summary(master: ComponentView, all: Seq<ComponentView>) -> (
    SummaryView,
    Option<Text>,
) {
    let start = key_of(time_in(master.lines, "DTSTART"@), all);
    if master.name == "VEVENT"@ {
        (SummaryView::Event(event_summary(master)), start)
    } else if master.name == "VTODO"@ {
        (
            SummaryView::Task(task_summary(master)),
            match key_of(time_in(master.lines, "DUE"@), all) {
                Some(due) => Some(due),
                None => start,
            },
        )
    } else {
        (SummaryView::Journal(journal_summary(master)), start)
    }
}

/// What a calendar resource derives to.
pub open spec fn calendar_derivation(body: Seq<u8>) -> DerivationView {
    let all = blocks_of(content_lines(unfolded(body, false))).all;
    match master_of(all) {
        Some(at) => {
            let (summary, key) = master_summary(all[at], all);
            DerivationView {
                link_id: hinted_key(all[at].value("UID"@), body),
                summary: Some(summary),
                sort_key: or_empty(key),
            }
        },
        None => DerivationView {
            link_id: hinted_key(
                match first_of_any(all) {
                    Some(at) => all[at].value("UID"@),
                    None => None,
                },
                body,
            ),
            summary: None,
            sort_key: Text::empty(),
        },
    }
}

/// A text property of a component, unescaped.
fn text_in(master: &Component, name: &str) -> (text: Option<String>)
    ensures
        text.deep_view() == unescaped_option(master@.value(name@)),
{
    match master.line(name) {
        Some(line) => Some(unescape(line.value.as_str())),
        None => None,
    }
}

/// A time property of a component.
fn time_under(master: &Component, name: &str) -> (time: Option<PimdirTime>)
    ensures
        time.deep_view() == time_in(master@.lines, name@),
{
    match master.line(name) {
        Some(line) => Some(time_of(line)),
        None => None,
    }
}

/// The instant an optional time names.
fn instant_of(time: &Option<PimdirTime>, components: &Vec<Component>) -> (text: Option<String>)
    requires
        nested(components.deep_view()),
    ensures
        text.deep_view() == key_of(time.deep_view(), components.deep_view()),
{
    match time {
        Some(time) => instant(time, components),
        None => None,
    }
}

/// Reads the summary of the master and the instant it sorts by.
fn summarize(components: &Vec<Component>, at: usize) -> (out: (PimdirSummary, Option<String>))
    requires
        at < components.len(),
        nested(components.deep_view()),
    ensures
        (out.0@, out.1.deep_view()) == master_summary(
            components.deep_view()[at as int],
            components.deep_view(),
        ),
{
    let master = &components[at];
    assert(components.deep_view()[at as int] == master@);
    let uid = master.value("UID");
    let summary = match text_in(master, "SUMMARY") {
        Some(summary) => summary,
        None => String::new(),
    };
    let dtstart = time_under(master, "DTSTART");
    let start = instant_of(&dtstart, components);
    let rrule = master.line("RRULE");
    let recurring = Some(rrule.is_some() || master.line("RDATE").is_some());
    let until = match rrule {
        Some(rrule) => until(rrule.value.as_str()),
        None => None,
    };
    let organizer = match master.line("ORGANIZER") {
        Some(line) => Some(person(line)),
        None => None,
    };
    let attendees = attendees(&master.lines);
    if text_same(master.name.as_str(), "VEVENT") {
        let event = PimdirEventSummary {
            uid,
            summary,
            location: text_in(master, "LOCATION"),
            dtstart,
            dtend: master.value("DTEND"),
            recurring,
            until,
            organizer,
            attendees,
        };
        assert(event@ =~= event_summary(master@));
        (PimdirSummary::Event(event), start)
    } else if text_same(master.name.as_str(), "VTODO") {
        let due = time_under(master, "DUE");
        let key = match instant_of(&due, components) {
            Some(key) => Some(key),
            None => start,
        };
        let task = PimdirTaskSummary {
            uid,
            summary,
            dtstart,
            due,
            status: match master.line("STATUS") {
                Some(line) => {
                    let status = chars_of(line.value.as_str());
                    Some(to_upper(text_of(trimmed(status.as_slice())).as_str()))
                },
                None => None,
            },
            completed: master.value("COMPLETED"),
            percent: match master.line("PERCENT-COMPLETE") {
                Some(line) => {
                    let percent = chars_of(line.value.as_str());
                    parse_signed(trimmed(percent.as_slice()), i64::MAX)
                },
                None => None,
            },
            recurring,
            until,
            organizer,
            attendees,
        };
        assert(task@ =~= task_summary(master@));
        (PimdirSummary::Task(task), key)
    } else {
        let journal = PimdirJournalSummary { uid, summary, dtstart, organizer, attendees };
        assert(journal@ =~= journal_summary(master@));
        (PimdirSummary::Journal(journal), start)
    }
}

/// Derives a resource's key, summary and sort key from its bytes.
///
/// The master is the first `VEVENT`, `VTODO` or `VJOURNAL` carrying no
/// `RECURRENCE-ID`. A resource holding none of the three is an item with a
/// body and no summary row.
pub fn derive(body: &[u8]) -> (derivation: PimdirDerivation)
    ensures
        derivation@ == calendar_derivation(body@),
{
    let components = parse(&unfold(body, false));
    let ghost all = components.deep_view();
    match master(&components) {
        Some(at) => {
            assert(all[at as int] == components@[at as int]@);
            let link_id = key_or_hash(&components[at].value("UID"), body);
            let (summary, key) = summarize(&components, at);
            let sort_key = match key {
                Some(key) => PimdirSortKey(key),
                None => PimdirSortKey(String::new()),
            };
            PimdirDerivation { link_id, summary: Some(summary), sort_key }
        },
        None => {
            let uid = match first_other(&components) {
                Some(at) => {
                    assert(all[at as int] == components@[at as int]@);
                    components[at].value("UID")
                },
                None => None,
            };
            PimdirDerivation {
                link_id: key_or_hash(&uid, body),
                summary: None,
                sort_key: PimdirSortKey(String::new()),
            }
        },
    }
}

/// Whether the characters of a text at a place spell a number below a
/// hundred as two decimal digits.
pub open spec fn spells_two(text: Text, at: int, n: int) -> bool {
    &&& 0 <= n < 100
    &&& 0 <= at
    &&& at + 2 <= text.len()
    &&& text[at] as int == 0x30 + n / 10
    &&& text[at + 1] as int == 0x30 + n % 10
}

proof fn lemma_spelled_digits(text: Text, at: int, n: int)
    requires
        is_ascii_chars(text),
        spells_two(text, at, n),
    ensures
        digits_at(encode_utf8(text), at, 2) == Some(n),
{
    is_ascii_chars_encode_utf8(text);
    let bytes = encode_utf8(text);
    assert(bytes[at] == text[at] as u8 && bytes[at + 1] == text[at + 1] as u8);
    assert(digits_at(bytes, at, 0) == Some(0int));
    assert(digits_at(bytes, at, 1) == Some(n / 10));
}

proof fn lemma_trim_keeps(text: Text)
    requires
        text.len() > 0,
        !is_white(text[0]),
        !is_white(text.last()),
    ensures
        trim(text) == text,
{
}

/// The sign of a UTC offset counts: `+hhmm` is that many hours and
/// minutes, `-hhmm` as much the other way, and seconds add to either.
pub proof fn lemma_the_sign_of_an_offset_counts(
    raw: Text,
    hours: int,
    minutes: int,
    seconds: int,
)
    requires
        raw.len() == 5 && seconds == 0 || raw.len() == 7 && spells_two(raw, 5, seconds),
        spells_two(raw, 1, hours),
        spells_two(raw, 3, minutes),
    ensures
        raw[0] == '+' ==> offset_seconds(raw) == Some(hours * 3_600 + minutes * 60 + seconds),
        raw[0] == '-' ==> offset_seconds(raw) == Some(-(hours * 3_600 + minutes * 60 + seconds)),
{
    if raw[0] == '+' || raw[0] == '-' {
        assert(is_ascii_chars(raw)) by {
            assert forall|i: int| 0 <= i < raw.len() implies '\0' <= #[trigger] raw[i]
                <= '\u{7f}' by {
                assert(i == 0 || i == 1 || i == 2 || i == 3 || i == 4 || i == 5 || i == 6);
            }
        }
        lemma_trim_keeps(raw);
        is_ascii_chars_encode_utf8(raw);
        assert(encode_utf8(raw)[0] == raw[0] as u8);
        lemma_spelled_digits(raw, 1, hours);
        lemma_spelled_digits(raw, 3, minutes);
        if raw.len() == 7 {
            lemma_spelled_digits(raw, 5, seconds);
        } else {
            assert(digits_at(encode_utf8(raw), 5, 1) is None);
        }
    }
}

/// The offset in effect at an instant is what the last change at or
/// before it put there, and before every change what the first came from.
pub proof fn lemma_the_offset_in_effect(list: Seq<TransitionView>, instant: int, i: int)
    requires
        list.len() > 0,
        -1 <= i < list.len(),
        i >= 0 ==> list[i].at <= instant,
        forall|j: int| i < j < list.len() ==> instant < (#[trigger] list[j]).at,
    ensures
        offset_at(list, instant) == if i >= 0 {
            list[i].to
        } else {
            list[0].from
        },
    decreases list.len(),
{
    if list.last().at > instant && list.len() > 1 {
        let rest = list.drop_last();
        assert forall|j: int| i < j < rest.len() implies instant < (#[trigger] rest[j]).at by {
            assert(rest[j] == list[j]);
        }
        lemma_the_offset_in_effect(rest, instant, i);
    }
}

proof fn lemma_distinct_of_one(values: Seq<int>, offset: int)
    requires
        values.len() > 0,
        forall|i: int| 0 <= i < values.len() ==> #[trigger] values[i] == offset,
    ensures
        distinct(values) == seq![offset],
    decreases values.len(),
{
    let rest = values.drop_last();
    if rest.len() > 0 {
        lemma_distinct_of_one(rest, offset);
        assert(seq![offset][0] == offset);
    } else {
        assert(distinct(rest) =~= Seq::<int>::empty());
        assert(distinct(values) =~= seq![offset]);
    }
}

/// A wall time in a zone at one offset throughout names the instant that
/// many seconds before the same wall time read as UTC, so a later one
/// where the offset is negative.
pub proof fn lemma_a_fixed_offset_shifts_the_wall_time(
    list: Seq<TransitionView>,
    local: int,
    offset: int,
)
    requires
        list.len() > 0,
        forall|i: int|
            0 <= i < list.len() ==> (#[trigger] list[i]).from == offset && list[i].to == offset,
    ensures
        resolved(list, local) == local - offset,
{
    let values = seq![list[0].from] + list.map_values(|change: TransitionView| change.to);
    assert forall|i: int| 0 <= i < values.len() implies #[trigger] values[i] == offset by {
        if i > 0 {
            assert(values[i] == list[i - 1].to);
        }
    }
    lemma_distinct_of_one(values, offset);
    lemma_a_wall_time_names_its_earliest_instant(list, local, 0);
}

proof fn lemma_a_change_keeps_the_offset(change: ComponentView, year: int, offset: int)
    requires
        fixed_at(change, offset),
    ensures
        forall|i: int|
            0 <= i < changes_of(change, year).len() ==> (#[trigger] changes_of(
                change,
                year,
            )[i]).from == offset && changes_of(change, year)[i].to == offset,
{
}

proof fn lemma_changes_keep_the_offset(
    all: Seq<ComponentView>,
    zone: int,
    year: int,
    offset: int,
)
    requires
        forall|i: int|
            0 <= i < all.len() && (#[trigger] all[i]).parent == Some(zone) ==> fixed_at(
                all[i],
                offset,
            ),
    ensures
        forall|i: int|
            0 <= i < changes_in(all, zone, year).len() ==> (#[trigger] changes_in(
                all,
                zone,
                year,
            )[i]).from == offset && changes_in(all, zone, year)[i].to == offset,
    decreases all.len(),
{
    if all.len() > 0 {
        let rest = all.drop_last();
        assert forall|i: int|
            0 <= i < rest.len() && (#[trigger] rest[i]).parent == Some(zone) implies fixed_at(
            rest[i],
            offset,
        ) by {
            assert(rest[i] == all[i]);
        }
        lemma_changes_keep_the_offset(rest, zone, year, offset);
        assert(all.last() == all[all.len() - 1]);
        if is_change(all.last(), zone) {
            lemma_a_change_keeps_the_offset(all.last(), year, offset);
            let before = changes_in(rest, zone, year);
            let more = changes_of(all.last(), year);
            assert forall|i: int| 0 <= i < (before + more).len() implies (#[trigger] (before
                + more)[i]).from == offset && (before + more)[i].to == offset by {
                if i >= before.len() {
                    assert((before + more)[i] == more[i - before.len()]);
                }
            }
            assert(changes_in(all, zone, year) == before + more);
        } else {
            assert(changes_in(all, zone, year) == changes_in(rest, zone, year));
        }
    } else {
        assert(changes_in(all, zone, year).len() == 0);
    }
}

/// Whether every change a block states is from an offset to that offset.
pub open spec fn fixed_at(change: ComponentView, offset: int) -> bool {
    &&& change.value("TZOFFSETFROM"@) matches Some(from) ==> (offset_seconds(from) matches Some(
        n,
    ) ==> n == offset)
    &&& change.value("TZOFFSETTO"@) matches Some(to) ==> (offset_seconds(to) matches Some(n)
        ==> n == offset)
}

/// A start in a zone whose blocks all state one offset is that far from
/// the same wall time read as UTC, against the sign of the offset.
pub proof fn lemma_a_start_in_a_fixed_zone(
    time: TimeView,
    all: Seq<ComponentView>,
    zone: int,
    offset: int,
    year: int,
    local: int,
)
    requires
        !time.date,
        time.tzid matches Some(tzid) && zone_of(all, tzid) == Some(zone),
        forall|i: int|
            0 <= i < all.len() && (#[trigger] all[i]).parent == Some(zone) ==> fixed_at(
                all[i],
                offset,
            ),
        transitions_of(all, zone, year).len() > 0,
        names_wall_time(time.value, year, local),
        encode_utf8(time.value).len() == 15,
    ensures
        start_instant(time, all) == Some(instant_text(local - offset)),
{
    lemma_changes_keep_the_offset(all, zone, year, offset);
    let changes = changes_in(all, zone, year);
    let list = transitions_of(all, zone, year);
    lemma_time_order(changes);
    broadcast use vstd::seq_lib::group_to_multiset_ensures;

    assert forall|i: int| 0 <= i < list.len() implies (#[trigger] list[i]).from == offset
        && list[i].to == offset by {
        assert(list.contains(list[i]));
        assert(list.to_multiset().count(list[i]) > 0);
        assert(changes.contains(list[i]));
        let j = choose|j: int| 0 <= j < changes.len() && changes[j] == list[i];
        assert(changes[j].from == offset);
    }
    lemma_a_fixed_offset_shifts_the_wall_time(list, local, offset);
}

/// Whether a text opens with `yyyymmddThhmmss`, and which wall time of
/// which year that is, counted as if it were UTC.
pub open spec fn names_wall_time(text: Text, year: int, local: int) -> bool {
    let bytes = encode_utf8(text);
    &&& bytes.len() >= 15
    &&& bytes[8] == 0x54
    &&& digits_at(bytes, 0, 4) == Some(year)
    &&& exists|month: int, day: int, hour: int, minute: int, second: int|
        {
            &&& #[trigger] unix_seconds(year, month, day, hour, minute, second) == local
            &&& digits_at(bytes, 4, 2) == Some(month)
            &&& digits_at(bytes, 6, 2) == Some(day)
            &&& digits_at(bytes, 9, 2) == Some(hour)
            &&& digits_at(bytes, 11, 2) == Some(minute)
            &&& digits_at(bytes, 13, 2) == Some(second)
        }
}

/// A time that ends in `Z` is UTC whatever zone it names, and one that
/// names no zone, or none the resource carries, is read as UTC; a date
/// is its midnight, whatever follows it.
pub proof fn lemma_a_start_outside_every_zone(
    time: TimeView,
    all: Seq<ComponentView>,
    year: int,
    local: int,
)
    requires
        names_wall_time(time.value, year, local),
    ensures
        !time.date && encode_utf8(time.value).len() > 15 && encode_utf8(time.value)[15] == 0x5a
            ==> start_instant(time, all) == Some(instant_text(local)),
        !time.date && (time.tzid matches Some(tzid) ==> zone_of(all, tzid) is None)
            ==> start_instant(time, all) == Some(instant_text(local)),
        time.date ==> exists|month: int, day: int|
            {
                &&& start_instant(time, all) == Some(
                    instant_text(#[trigger] civil_days(year, month, day) * 86_400),
                )
                &&& civil_days(year, month, day) * 86_400 <= local
                &&& local < civil_days(year, month, day) * 86_400 + 100 * 3_661
            },
{
    let bytes = encode_utf8(time.value);
    let (month, day, hour, minute, second) = choose|
        month: int,
        day: int,
        hour: int,
        minute: int,
        second: int,
    |
        {
            &&& #[trigger] unix_seconds(year, month, day, hour, minute, second) == local
            &&& digits_at(bytes, 4, 2) == Some(month)
            &&& digits_at(bytes, 6, 2) == Some(day)
            &&& digits_at(bytes, 9, 2) == Some(hour)
            &&& digits_at(bytes, 11, 2) == Some(minute)
            &&& digits_at(bytes, 13, 2) == Some(second)
        };
    lemma_two_digits_bound(bytes, 9);
    lemma_two_digits_bound(bytes, 11);
    lemma_two_digits_bound(bytes, 13);
    assert(unix_seconds(year, month, day, 0, 0, 0) == civil_days(year, month, day) * 86_400);
}

proof fn lemma_two_digits_bound(bytes: Seq<u8>, at: int)
    ensures
        digits_at(bytes, at, 2) matches Some(n) ==> 0 <= n < 100,
{
    reveal_with_fuel(digits_at, 3);
}

/// A block that states one change, and no rule that can be read, states it
/// at its own wall time under the offset it comes from.
pub proof fn lemma_a_change_happens_under_the_old_offset(
    change: ComponentView,
    from: Text,
    to: Text,
    start: Text,
    year: int,
    wall_year: int,
    wall: int,
)
    requires
        change.value("TZOFFSETFROM"@) == Some(from),
        change.value("TZOFFSETTO"@) == Some(to),
        change.value("DTSTART"@) == Some(start),
        change.value("RRULE"@) matches Some(rrule) ==> yearly_rule(rrule) is None,
        offset_seconds(from) is Some,
        offset_seconds(to) is Some,
        names_wall_time(start, wall_year, wall),
    ensures
        changes_of(change, year).len() == 1,
        changes_of(change, year)[0].at + offset_seconds(from)->0 == wall,
        changes_of(change, year)[0].from == offset_seconds(from)->0,
        changes_of(change, year)[0].to == offset_seconds(to)->0,
{
}

/// The changes a yearly rule states are those of the year asked for and
/// the ones around it, each on its day at its wall time under the offset
/// it comes from.
pub proof fn lemma_a_yearly_change_happens_under_the_old_offset(
    rule: (int, int, int),
    year: int,
    hour: int,
    minute: int,
    second: int,
    from: int,
    to: int,
    day: int,
)
    requires
        nth_weekday_of(year, rule.0, rule.1, rule.2) == Some(day),
    ensures
        yearly_transition(rule, year, hour, minute, second, from, to).len() == 1,
        ({
            let change = yearly_transition(rule, year, hour, minute, second, from, to)[0];
            &&& change.at + from - civil_days(year, rule.0, day) * 86_400 == hour * 3_600 + minute
                * 60 + second
            &&& change.from == from
            &&& change.to == to
        }),
{
}

/// A day of a month is the `n`th of its weekday where `n - 1` whole weeks
/// and no more lie before it, and the `n`th from the end where as many
/// lie after it.
pub proof fn lemma_a_weekday_is_counted_in_weeks(
    year: int,
    month: int,
    ordinal: int,
    weekday: int,
    day: int,
)
    requires
        0 <= weekday < 7,
        1 <= day <= month_days(year, month),
        day_of_week(civil_days(year, month, day)) == weekday,
        ordinal > 0 ==> 7 * (ordinal - 1) < day <= 7 * ordinal,
        ordinal < 0 ==> 7 * (-ordinal - 1) <= month_days(year, month) - day < 7 * -ordinal,
        ordinal != 0,
    ensures
        nth_weekday_of(year, month, ordinal, weekday) == Some(day),
{
    let length = month_days(year, month);
    let first = civil_days(year, month, 1);
    let last = civil_days(year, month, length);
    assert(civil_days(year, month, day) == first + (day - 1));
    assert(civil_days(year, month, day) == last - (length - day));
    if ordinal > 0 {
        let into = (7 + weekday - day_of_week(first)) % 7;
        lemma_weeks_on(first + 4, weekday, ordinal - 1);
        lemma_one_of_a_week(
            first + 4 + into + (ordinal - 1) * 7,
            first + 4 + (day - 1),
            first + 4 + (ordinal - 1) * 7,
        );
    } else {
        let back = (7 + day_of_week(last) - weekday) % 7;
        lemma_weeks_back(last + 4, weekday, ordinal + 1);
        lemma_one_of_a_week(
            last + 4 - back + (ordinal + 1) * 7,
            last + 4 - (length - day),
            last + 4 + (ordinal + 1) * 7 - 6,
        );
    }
}

proof fn lemma_one_of_a_week(a: int, b: int, from: int)
    requires
        a % 7 == b % 7,
        from <= a < from + 7,
        from <= b < from + 7,
    ensures
        a == b,
{
}

/// The names of the days of the week count on from Sunday as the days
/// themselves do, and the epoch was a Thursday.
pub proof fn lemma_the_weekdays_count_on(day: int)
    ensures
        weekday_number("TH"@) == Some(day_of_week(0)),
        weekday_number("SU"@) == Some(day) ==> weekday_number("MO"@) == Some((day + 1) % 7),
        weekday_number("MO"@) == Some(day) ==> weekday_number("TU"@) == Some((day + 1) % 7),
        weekday_number("TU"@) == Some(day) ==> weekday_number("WE"@) == Some((day + 1) % 7),
        weekday_number("WE"@) == Some(day) ==> weekday_number("TH"@) == Some((day + 1) % 7),
        weekday_number("TH"@) == Some(day) ==> weekday_number("FR"@) == Some((day + 1) % 7),
        weekday_number("FR"@) == Some(day) ==> weekday_number("SA"@) == Some((day + 1) % 7),
        weekday_number("SA"@) == Some(day) ==> weekday_number("SU"@) == Some((day + 1) % 7),
{
    reveal_strlit("SU");
    reveal_strlit("MO");
    reveal_strlit("TU");
    reveal_strlit("WE");
    reveal_strlit("TH");
    reveal_strlit("FR");
    reveal_strlit("SA");
    assert("SU"@[0] == 'S' && "SU"@[1] == 'U');
    assert("MO"@[0] == 'M' && "MO"@[1] == 'O');
    assert("TU"@[0] == 'T' && "TU"@[1] == 'U');
    assert("WE"@[0] == 'W' && "WE"@[1] == 'E');
    assert("TH"@[0] == 'T' && "TH"@[1] == 'H');
    assert("FR"@[0] == 'F' && "FR"@[1] == 'R');
    assert("SA"@[0] == 'S' && "SA"@[1] == 'A');
}

/// A block holds the lines between its `BEGIN` and its `END`, stands
/// inside the block open around it, and leaves that one open behind it.
pub proof fn lemma_a_block_holds_its_lines(
    before: Seq<ContentLineView>,
    begin: ContentLineView,
    body: Seq<ContentLineView>,
    end: ContentLineView,
)
    requires
        begin.name == "BEGIN"@,
        end.name == "END"@,
        forall|i: int|
            0 <= i < body.len() ==> (#[trigger] body[i]).name != "BEGIN"@ && body[i].name
                != "END"@,
    ensures
        ({
            let around = blocks_of(before);
            let after = blocks_of(before.push(begin) + body.push(end));
            &&& after.open == around.open
            &&& after.all.len() == around.all.len() + 1
            &&& after.all.drop_last() == around.all
            &&& after.all.last().name == uppercase(trim(begin.value))
            &&& after.all.last().parent == around.open
            &&& after.all.last().lines == body
        }),
{
    let around = blocks_of(before);
    let opened = before.push(begin);
    assert(opened.drop_last() =~= before);
    assert(opened + Seq::<ContentLineView>::empty() =~= opened);
    lemma_an_open_block_takes_lines(before, begin, body);
    let within = opened + body;
    assert((opened + body.push(end)).drop_last() =~= within);
    reveal_strlit("BEGIN");
    reveal_strlit("END");
    assert("BEGIN"@.len() == 5 && "END"@.len() == 3);
}

proof fn lemma_an_open_block_takes_lines(
    before: Seq<ContentLineView>,
    begin: ContentLineView,
    body: Seq<ContentLineView>,
)
    requires
        begin.name == "BEGIN"@,
        forall|i: int|
            0 <= i < body.len() ==> (#[trigger] body[i]).name != "BEGIN"@ && body[i].name
                != "END"@,
    ensures
        ({
            let around = blocks_of(before);
            let within = blocks_of(before.push(begin) + body);
            &&& within.open == Some(around.all.len() as int)
            &&& within.all == around.all.push(
                ComponentView {
                    name: uppercase(trim(begin.value)),
                    parent: around.open,
                    lines: body,
                },
            )
        }),
    decreases body.len(),
{
    let opened = before.push(begin);
    assert(opened.drop_last() =~= before);
    if body.len() == 0 {
        assert(opened + body =~= opened);
        assert(body =~= Seq::<ContentLineView>::empty());
    } else {
        let rest = body.drop_last();
        assert forall|i: int| 0 <= i < rest.len() implies (#[trigger] rest[i]).name != "BEGIN"@
            && rest[i].name != "END"@ by {
            assert(rest[i] == body[i]);
        }
        lemma_an_open_block_takes_lines(before, begin, rest);
        assert((opened + body).drop_last() =~= opened + rest);
        assert((opened + body).last() == body.last());
        assert(body.last() == body[body.len() - 1]);
        assert(rest.push(body.last()) =~= body);
        let around = blocks_of(before);
        let n = around.all.len() as int;
        assert(blocks_of(opened + body).all =~= around.all.push(
            ComponentView {
                name: uppercase(trim(begin.value)),
                parent: around.open,
                lines: body,
            },
        ));
    }
}

proof fn lemma_first_where_is(len: int, from: int, meets: spec_fn(int) -> bool, at: int)
    requires
        from <= at <= len,
        at < len ==> meets(at),
        forall|j: int| from <= j < at ==> !#[trigger] meets(j),
    ensures
        first_where(len, from, meets) == if at < len {
            Some(at)
        } else {
            None
        },
    decreases len - from,
{
    if from < at {
        assert(!meets(from));
        lemma_first_where_is(len, from + 1, meets, at);
    }
}

/// Whether a block is an event, task or journal directly inside an
/// outermost block.
pub open spec fn describes(all: Seq<ComponentView>, i: int) -> bool {
    &&& all[i].parent matches Some(p) && all[p].parent is None
    &&& (all[i].name == "VEVENT"@ || all[i].name == "VTODO"@ || all[i].name == "VJOURNAL"@)
}

/// The summary describes the first event, task or journal that overrides
/// no occurrence.
pub proof fn lemma_the_master_overrides_nothing(all: Seq<ComponentView>, at: int)
    requires
        0 <= at < all.len(),
        describes(all, at),
        all[at].value("RECURRENCE-ID"@) is None,
        forall|j: int|
            0 <= j < at && #[trigger] describes(all, j) ==> all[j].value("RECURRENCE-ID"@) is Some,
    ensures
        master_of(all) == Some(at),
{
    let meets = |i: int| is_candidate(all, i) && all[i].value("RECURRENCE-ID"@) is None;
    assert forall|j: int| 0 <= j < at implies !#[trigger] meets(j) by {
        assert(describes(all, j) == is_candidate(all, j));
    }
    lemma_first_where_is(all.len() as int, 0, meets, at);
}

/// Where every event, task and journal is an override the summary
/// describes the first, and where there is none it describes nothing.
pub proof fn lemma_an_override_stands_in_for_its_master(all: Seq<ComponentView>, at: int)
    requires
        0 <= at <= all.len(),
        at < all.len() ==> describes(all, at),
        forall|j: int| 0 <= j < at ==> !#[trigger] describes(all, j),
        forall|j: int|
            0 <= j < all.len() && #[trigger] describes(all, j) ==> all[j].value("RECURRENCE-ID"@)
                is Some,
    ensures
        at < all.len() ==> master_of(all) == Some(at),
        at == all.len() ==> master_of(all) is None,
{
    let meets = |i: int| is_candidate(all, i) && all[i].value("RECURRENCE-ID"@) is None;
    let any = |i: int| is_candidate(all, i);
    assert forall|j: int| 0 <= j < all.len() implies !#[trigger] meets(j) by {
        assert(describes(all, j) == is_candidate(all, j));
    }
    assert forall|j: int| 0 <= j < at implies !#[trigger] any(j) by {
        assert(describes(all, j) == is_candidate(all, j));
    }
    lemma_first_where_is(all.len() as int, 0, meets, all.len() as int);
    lemma_first_where_is(all.len() as int, 0, any, at);
}

/// Whether a block is a zone of a name directly inside an outermost
/// block.
pub open spec fn is_zone(all: Seq<ComponentView>, tzid: Text, i: int) -> bool {
    &&& all[i].parent matches Some(p) && all[p].parent is None
    &&& all[i].name == "VTIMEZONE"@
    &&& all[i].value("TZID"@) == Some(tzid)
}

/// A time's zone is the first zone of its name, and it has none only
/// where the resource carries none of that name.
pub proof fn lemma_the_zone_of_a_name(all: Seq<ComponentView>, tzid: Text, at: int)
    requires
        0 <= at <= all.len(),
        at < all.len() ==> is_zone(all, tzid, at),
        forall|j: int| 0 <= j < at ==> !#[trigger] is_zone(all, tzid, j),
    ensures
        at < all.len() ==> zone_of(all, tzid) == Some(at),
        at == all.len() ==> zone_of(all, tzid) is None,
{
    let meets = |i: int|
        is_inner(all, i) && all[i].name == "VTIMEZONE"@ && all[i].value("TZID"@) == Some(tzid);
    assert forall|j: int| 0 <= j < at implies !#[trigger] meets(j) by {
        assert(is_zone(all, tzid, j) == meets(j));
    }
    lemma_first_where_is(all.len() as int, 0, meets, at);
}

/// The identity of a resource without an event, task or journal is that
/// of its first block that is no zone.
pub proof fn lemma_another_block_names_the_resource(all: Seq<ComponentView>, at: int)
    requires
        0 <= at < all.len(),
        all[at].parent matches Some(p) && all[p].parent is None,
        all[at].name != "VTIMEZONE"@,
        forall|j: int|
            0 <= j < at && (#[trigger] all[j]).name != "VTIMEZONE"@ ==> !(all[j].parent matches Some(
                p,
            ) && all[p].parent is None),
    ensures
        first_of_any(all) == Some(at),
{
    let meets = |i: int| is_inner(all, i) && all[i].name != "VTIMEZONE"@;
    assert forall|j: int| 0 <= j < at implies !#[trigger] meets(j) by {
        assert(all[j].name != "VTIMEZONE"@ ==> !is_inner(all, j));
    }
    lemma_first_where_is(all.len() as int, 0, meets, at);
}

/// Whether a part of a recurrence rule is under a name, told in upper
/// case, and what it says.
pub open spec fn says(part: Text, name: Text, value: Text) -> bool {
    cut_once(part, '=') matches Some((n, v)) && uppercase(n) == name && v == value
}

/// A rule is yearly where the last of its frequencies says so, in any
/// letter case.
pub proof fn lemma_the_last_frequency_stands(parts: Seq<Text>, at: int, value: Text)
    requires
        0 <= at < parts.len(),
        says(parts[at], "FREQ"@, value),
        forall|j: int, v: Text|
            at < j < parts.len() ==> !#[trigger] says(parts[j], "FREQ"@, v),
    ensures
        rule_of(parts).yearly == (lower_ascii(value) == lower_ascii("YEARLY"@)),
    decreases parts.len(),
{
    lemma_rule_names();
    if at < parts.len() - 1 {
        let rest = parts.drop_last();
        let last = parts.len() - 1;
        assert(parts.last() == parts[last]);
        assert forall|j: int, v: Text|
            at < j < rest.len() implies !#[trigger] says(rest[j], "FREQ"@, v) by {
            assert(!says(parts[j], "FREQ"@, v));
        }
        lemma_the_last_frequency_stands(rest, at, value);
        if let Some((n, v)) = cut_once(parts.last(), '=') {
            assert(!says(parts[last], "FREQ"@, v));
        }
    }
}

/// The month of a rule is what the last of its months spells.
pub proof fn lemma_the_last_month_stands(parts: Seq<Text>, at: int, value: Text)
    requires
        0 <= at < parts.len(),
        says(parts[at], "BYMONTH"@, value),
        forall|j: int, v: Text|
            at < j < parts.len() ==> !#[trigger] says(parts[j], "BYMONTH"@, v),
    ensures
        rule_of(parts).month == bounded_decimal(value, false, 0, u32::MAX as int),
    decreases parts.len(),
{
    lemma_rule_names();
    if at < parts.len() - 1 {
        let rest = parts.drop_last();
        let last = parts.len() - 1;
        assert(parts.last() == parts[last]);
        assert forall|j: int, v: Text|
            at < j < rest.len() implies !#[trigger] says(rest[j], "BYMONTH"@, v) by {
            assert(!says(parts[j], "BYMONTH"@, v));
        }
        lemma_the_last_month_stands(rest, at, value);
        if let Some((n, v)) = cut_once(parts.last(), '=') {
            assert(!says(parts[last], "BYMONTH"@, v));
        }
    }
}

/// The day of a rule is what the last of its days says, in upper case.
pub proof fn lemma_the_last_day_stands(parts: Seq<Text>, at: int, value: Text)
    requires
        0 <= at < parts.len(),
        says(parts[at], "BYDAY"@, value),
        forall|j: int, v: Text|
            at < j < parts.len() ==> !#[trigger] says(parts[j], "BYDAY"@, v),
    ensures
        rule_of(parts).byday == Some(uppercase(value)),
    decreases parts.len(),
{
    lemma_rule_names();
    if at < parts.len() - 1 {
        let rest = parts.drop_last();
        let last = parts.len() - 1;
        assert(parts.last() == parts[last]);
        assert forall|j: int, v: Text|
            at < j < rest.len() implies !#[trigger] says(rest[j], "BYDAY"@, v) by {
            assert(!says(parts[j], "BYDAY"@, v));
        }
        lemma_the_last_day_stands(rest, at, value);
        if let Some((n, v)) = cut_once(parts.last(), '=') {
            assert(!says(parts[last], "BYDAY"@, v));
        }
    }
}

proof fn lemma_rule_names()
    ensures
        "FREQ"@ != "BYMONTH"@,
        "FREQ"@ != "BYDAY"@,
        "BYMONTH"@ != "BYDAY"@,
{
    reveal_strlit("FREQ");
    reveal_strlit("BYMONTH");
    reveal_strlit("BYDAY");
    assert("FREQ"@.len() == 4 && "BYMONTH"@.len() == 7 && "BYDAY"@.len() == 5);
}

/// A yearly rule counts its weekday from the start of its month, from the
/// end behind a `-`, and takes the first where it says no number.
pub proof fn lemma_a_rule_counts_its_weekday(rrule: Text, month: int, digit: char, name: Text)
    requires
        rule_of(split_on(rrule, ';')).yearly,
        rule_of(split_on(rrule, ';')).month == Some(month),
        '0' <= digit <= '9',
        name.len() == 2,
        weekday_number(name) is Some,
    ensures
        rule_of(split_on(rrule, ';')).byday == Some(name) ==> yearly_rule(rrule) == Some(
            (month, 1int, weekday_number(name)->0),
        ),
        rule_of(split_on(rrule, ';')).byday == Some(seq![digit] + name) ==> yearly_rule(rrule)
            == Some((month, digit as int - '0' as int, weekday_number(name)->0)),
        rule_of(split_on(rrule, ';')).byday == Some(seq!['-', digit] + name) ==> yearly_rule(rrule)
            == Some((month, '0' as int - digit as int, weekday_number(name)->0)),
{
    assert(name.skip(0) =~= name && name.take(0) =~= Text::empty());
    let one = seq![digit] + name;
    assert(one.skip(1) =~= name && one.take(1) =~= seq![digit]);
    let two = seq!['-', digit] + name;
    assert(two.skip(2) =~= name && two.take(2) =~= seq!['-', digit]);
    assert(seq!['-', digit].drop_first() =~= seq![digit]);
    assert(seq![digit].drop_last() =~= Text::empty());
    assert(crate::scan::digits_value(seq![digit]) == digit as int - '0' as int) by {
        assert(crate::scan::digits_value(Text::empty()) == 0);
    }
    assert(crate::scan::all_digits(seq![digit]));
}

/// A rule without a frequency of `YEARLY`, a month or a weekday is none
/// that states a change in every year.
pub proof fn lemma_a_rule_lacking_a_part_is_not_yearly(rrule: Text)
    ensures
        !rule_of(split_on(rrule, ';')).yearly ==> yearly_rule(rrule) is None,
        rule_of(split_on(rrule, ';')).month is None ==> yearly_rule(rrule) is None,
        rule_of(split_on(rrule, ';')).byday is None ==> yearly_rule(rrule) is None,
{
}

/// The end of a recurrence is the first `UNTIL` of its rule, in any letter
/// case, verbatim.
pub proof fn lemma_the_first_until_stands(parts: Seq<Text>, at: int)
    requires
        0 <= at <= parts.len(),
        at < parts.len() ==> is_until(parts[at]),
        forall|j: int| 0 <= j < at ==> !is_until(#[trigger] parts[j]),
    ensures
        at < parts.len() ==> until_in(parts) == Some(until_value(parts[at])),
        at == parts.len() ==> until_in(parts) is None,
    decreases parts.len(),
{
    if at > 0 {
        let rest = parts.drop_first();
        assert(!is_until(parts[0]));
        assert forall|j: int| 0 <= j < at - 1 implies !is_until(#[trigger] rest[j]) by {
            assert(rest[j] == parts[j + 1]);
        }
        lemma_the_first_until_stands(rest, at - 1);
    }
}

/// Whether a part of a recurrence rule says when it ends.
pub open spec fn is_until(part: Text) -> bool {
    cut_once(part, '=') matches Some((name, value)) && lower_ascii(name) == lower_ascii("UNTIL"@)
}

/// What a part of a recurrence rule says behind its `=`.
pub open spec fn until_value(part: Text) -> Text {
    part.skip(find_char(part, '=') + 1)
}

/// Every attendee line is an attendee, in the order of the lines.
pub proof fn lemma_every_attendee_is_told(lines: Seq<ContentLineView>, i: int)
    requires
        0 <= i < lines.len(),
        lines[i].name == "ATTENDEE"@,
    ensures
        attendees_of(lines.take(i)).len() < attendees_of(lines).len(),
        attendees_of(lines)[attendees_of(lines.take(i)).len() as int].address
            == canonical_address(lines[i].value),
        attendees_of(lines)[attendees_of(lines.take(i)).len() as int].name == unescaped_option(
            first_value(lines[i].params, "CN"@),
        ),
    decreases lines.len(),
{
    let rest = lines.drop_last();
    if i == lines.len() - 1 {
        assert(lines.take(i) =~= rest);
    } else {
        assert(rest.take(i) =~= lines.take(i));
        lemma_every_attendee_is_told(rest, i);
    }
}

/// Only the attendee lines are attendees.
pub proof fn lemma_no_other_line_is_an_attendee(lines: Seq<ContentLineView>)
    requires
        lines.len() > 0,
    ensures
        attendees_of(lines).len() <= lines.len(),
        lines.last().name != "ATTENDEE"@ ==> attendees_of(lines) == attendees_of(
            lines.drop_last(),
        ),
    decreases lines.len(),
{
    if lines.len() > 1 {
        lemma_no_other_line_is_an_attendee(lines.drop_last());
    } else {
        assert(attendees_of(lines.drop_last()).len() == 0);
    }
}

/// Whether a line is the first of its name.
pub open spec fn leads(lines: Seq<ContentLineView>, i: int) -> bool {
    &&& 0 <= i < lines.len()
    &&& forall|j: int| 0 <= j < i ==> (#[trigger] lines[j]).name != lines[i].name
}

/// An event's summary tells what the first line of each property says.
pub proof fn lemma_an_event_tells_its_lines(master: ComponentView, i: int)
    requires
        leads(master.lines, i),
    ensures
        ({
            let line = master.lines[i];
            let event = event_summary(master);
            &&& line.name == "UID"@ ==> event.uid == Some(line.value)
            &&& line.name == "SUMMARY"@ ==> Some(event.summary) == unescaped_option(
                Some(line.value),
            )
            &&& line.name == "LOCATION"@ ==> event.location == unescaped_option(Some(line.value))
            &&& line.name == "DTSTART"@ ==> (event.dtstart matches Some(start) && start.value
                == line.value && start.tzid == first_value(line.params, "TZID"@))
            &&& line.name == "DTEND"@ ==> event.dtend == Some(line.value)
            &&& line.name == "RRULE"@ ==> event.recurring == Some(true) && event.until == until_in(
                split_on(line.value, ';'),
            )
            &&& line.name == "RDATE"@ ==> event.recurring == Some(true)
            &&& line.name == "ORGANIZER"@ ==> (event.organizer matches Some(person)
                && person.address == canonical_address(line.value) && person.name
                == unescaped_option(first_value(line.params, "CN"@)))
        }),
{
    lemma_the_first_line_of_a_name(master.lines, master.lines[i].name, i);
}

/// A task's summary tells what the first line of each property says.
pub proof fn lemma_a_task_tells_its_lines(master: ComponentView, i: int)
    requires
        leads(master.lines, i),
    ensures
        ({
            let line = master.lines[i];
            let task = task_summary(master);
            &&& line.name == "UID"@ ==> task.uid == Some(line.value)
            &&& line.name == "SUMMARY"@ ==> Some(task.summary) == unescaped_option(
                Some(line.value),
            )
            &&& line.name == "DTSTART"@ ==> (task.dtstart matches Some(start) && start.value
                == line.value && start.tzid == first_value(line.params, "TZID"@))
            &&& line.name == "DUE"@ ==> (task.due matches Some(due) && due.value == line.value
                && due.tzid == first_value(line.params, "TZID"@))
            &&& line.name == "STATUS"@ ==> task.status == Some(uppercase(trim(line.value)))
            &&& line.name == "COMPLETED"@ ==> task.completed == Some(line.value)
            &&& line.name == "PERCENT-COMPLETE"@ ==> (forall|n: i64|
                #![trigger bounded_decimal(trim(line.value), true, n as int, n as int)]
                bounded_decimal(trim(line.value), true, i64::MIN as int, i64::MAX as int) == Some(
                    n as int,
                ) ==> task.percent == Some(n))
            &&& line.name == "RRULE"@ ==> task.recurring == Some(true) && task.until == until_in(
                split_on(line.value, ';'),
            )
            &&& line.name == "RDATE"@ ==> task.recurring == Some(true)
            &&& line.name == "ORGANIZER"@ ==> (task.organizer matches Some(person)
                && person.address == canonical_address(line.value) && person.name
                == unescaped_option(first_value(line.params, "CN"@)))
        }),
{
    lemma_the_first_line_of_a_name(master.lines, master.lines[i].name, i);
}

/// A journal's summary tells what the first line of each property says.
pub proof fn lemma_a_journal_tells_its_lines(master: ComponentView, i: int)
    requires
        leads(master.lines, i),
    ensures
        ({
            let line = master.lines[i];
            let journal = journal_summary(master);
            &&& line.name == "UID"@ ==> journal.uid == Some(line.value)
            &&& line.name == "SUMMARY"@ ==> Some(journal.summary) == unescaped_option(
                Some(line.value),
            )
            &&& line.name == "DTSTART"@ ==> (journal.dtstart matches Some(start) && start.value
                == line.value && start.tzid == first_value(line.params, "TZID"@))
            &&& line.name == "ORGANIZER"@ ==> (journal.organizer matches Some(person)
                && person.address == canonical_address(line.value) && person.name
                == unescaped_option(first_value(line.params, "CN"@)))
        }),
{
    lemma_the_first_line_of_a_name(master.lines, master.lines[i].name, i);
}

/// Whether no line carries a property.
pub open spec fn lacks(lines: Seq<ContentLineView>, name: Text) -> bool {
    forall|i: int| 0 <= i < lines.len() ==> (#[trigger] lines[i]).name != name
}

/// What no line carries, no summary tells, and a component without a rule
/// or a date of recurrence does not recur.
pub proof fn lemma_a_summary_tells_nothing_else(master: ComponentView, name: Text)
    requires
        lacks(master.lines, name),
    ensures
        name == "UID"@ ==> event_summary(master).uid is None && task_summary(master).uid is None
            && journal_summary(master).uid is None,
        name == "SUMMARY"@ ==> event_summary(master).summary.len() == 0 && task_summary(
            master,
        ).summary.len() == 0 && journal_summary(master).summary.len() == 0,
        name == "LOCATION"@ ==> event_summary(master).location is None,
        name == "DTSTART"@ ==> event_summary(master).dtstart is None && task_summary(master).dtstart
            is None && journal_summary(master).dtstart is None,
        name == "DTEND"@ ==> event_summary(master).dtend is None,
        name == "DUE"@ ==> task_summary(master).due is None,
        name == "STATUS"@ ==> task_summary(master).status is None,
        name == "COMPLETED"@ ==> task_summary(master).completed is None,
        name == "PERCENT-COMPLETE"@ ==> task_summary(master).percent is None,
        name == "ORGANIZER"@ ==> event_summary(master).organizer is None && task_summary(
            master,
        ).organizer is None && journal_summary(master).organizer is None,
        name == "RRULE"@ ==> event_summary(master).until is None && task_summary(master).until
            is None,
        name == "RRULE"@ && lacks(master.lines, "RDATE"@) ==> event_summary(master).recurring
            == Some(false) && task_summary(master).recurring == Some(false),
{
    lemma_the_first_line_of_a_name(master.lines, name, master.lines.len() as int);
    if lacks(master.lines, "RDATE"@) {
        lemma_the_first_line_of_a_name(master.lines, "RDATE"@, master.lines.len() as int);
    }
}

/// An event and a journal sort by their start, a task by when it is due
/// and by its start only where that names no instant.
pub proof fn lemma_what_a_master_sorts_by(master: ComponentView, all: Seq<ComponentView>)
    requires
        describes_name(master.name),
    ensures
        master.name == "VEVENT"@ ==> master_summary(master, all).0 is Event,
        master.name == "VTODO"@ ==> master_summary(master, all).0 is Task,
        master.name == "VJOURNAL"@ ==> master_summary(master, all).0 is Journal,
        master.name != "VTODO"@ ==> master_summary(master, all).1 == key_of(
            time_in(master.lines, "DTSTART"@),
            all,
        ),
        master.name == "VTODO"@ && key_of(time_in(master.lines, "DUE"@), all) is Some
            ==> master_summary(master, all).1 == key_of(time_in(master.lines, "DUE"@), all),
        master.name == "VTODO"@ && key_of(time_in(master.lines, "DUE"@), all) is None
            ==> master_summary(master, all).1 == key_of(time_in(master.lines, "DTSTART"@), all),
{
    reveal_strlit("VEVENT");
    reveal_strlit("VTODO");
    reveal_strlit("VJOURNAL");
    assert("VEVENT"@.len() == 6 && "VTODO"@.len() == 5 && "VJOURNAL"@.len() == 8);
}

/// Whether a block of a name can be what a summary describes.
pub open spec fn describes_name(name: Text) -> bool {
    name == "VEVENT"@ || name == "VTODO"@ || name == "VJOURNAL"@
}

/// A block with a yearly rule states its change in the year asked for and
/// in the ones before and after it, each time on the day of its rule, at
/// the wall time of its start, under the offset it comes from.
pub proof fn lemma_a_yearly_rule_reaches_around_the_year(
    change: ComponentView,
    from: Text,
    to: Text,
    start: Text,
    rrule: Text,
    rule: (int, int, int),
    year: int,
    around: int,
    day: int,
    clock: (int, int, int),
)
    requires
        change.value("TZOFFSETFROM"@) == Some(from),
        change.value("TZOFFSETTO"@) == Some(to),
        change.value("DTSTART"@) == Some(start),
        change.value("RRULE"@) == Some(rrule),
        yearly_rule(rrule) == Some(rule),
        offset_seconds(from) is Some,
        offset_seconds(to) is Some,
        digits_at(encode_utf8(start), 9, 2) == Some(clock.0),
        digits_at(encode_utf8(start), 11, 2) == Some(clock.1),
        digits_at(encode_utf8(start), 13, 2) == Some(clock.2),
        year - 1 <= around <= year + 1,
        nth_weekday_of(around, rule.0, rule.1, rule.2) == Some(day),
    ensures
        changes_of(change, year).contains(
            TransitionView {
                at: civil_days(around, rule.0, day) * 86_400 + clock.0 * 3_600 + clock.1 * 60
                    + clock.2 - offset_seconds(from)->0,
                to: offset_seconds(to)->0,
                from: offset_seconds(from)->0,
            },
        ),
        changes_of(change, year).len() <= 3,
{
    let f = offset_seconds(from)->0;
    let t = offset_seconds(to)->0;
    let a = yearly_transition(rule, year - 1, clock.0, clock.1, clock.2, f, t);
    let b = yearly_transition(rule, year, clock.0, clock.1, clock.2, f, t);
    let c = yearly_transition(rule, year + 1, clock.0, clock.1, clock.2, f, t);
    let all = changes_of(change, year);
    assert(all =~= a + b + c);
    if around == year - 1 {
        assert(all[0] == a[0]);
    } else if around == year {
        assert(all[a.len() as int] == b[0]);
    } else {
        assert(all[a.len() as int + b.len()] == c[0]);
    }
}

} // verus!

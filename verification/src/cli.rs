//! # Operator reports
//!
//! What the operator tool works out and says: how many bytes, which source,
//! whether to go on, and the lines and cells each verb prints. Opening the
//! store, asking and drawing tables are the program's.

pub mod check;
pub mod collection;
pub mod export;
pub mod gc;
pub mod item;
pub mod queue;
pub mod store;
pub mod summary;

use crate::client::{ErrorView, PimdirError};
use crate::scan::{decimal, decimal_text};
use crate::summary::borrowed;
use crate::text::Text;
use vstd::prelude::*;
use vstd::string::*;

verus! {

/// The producer name recorded on every queue row this tool appends, so an
/// operator can tell its actions apart from a frontend's.
pub const PRODUCER: &'static str = "pimdir-cli";

/// A quotient rounded to the nearest whole, halves to the even one.
pub open spec fn half_even(n: nat, d: nat) -> nat
    recommends
        d > 0,
{
    let quotient = n / d;
    let rest = n % d;
    if 2 * rest > d || (2 * rest == d && quotient % 2 == 1) {
        quotient + 1
    } else {
        quotient
    }
}

/// The power of two a count is told in multiples of: the first leaving at
/// most 53 significant bits.
pub open spec fn grain(n: nat) -> nat {
    if n < 0x20000000000000 {
        0x1
    } else if n < 0x40000000000000 {
        0x2
    } else if n < 0x80000000000000 {
        0x4
    } else if n < 0x100000000000000 {
        0x8
    } else if n < 0x200000000000000 {
        0x10
    } else if n < 0x400000000000000 {
        0x20
    } else if n < 0x800000000000000 {
        0x40
    } else if n < 0x1000000000000000 {
        0x80
    } else if n < 0x2000000000000000 {
        0x100
    } else if n < 0x4000000000000000 {
        0x200
    } else if n < 0x8000000000000000 {
        0x400
    } else {
        0x800
    }
}

/// A count with 53 significant bits.
pub open spec fn significant(n: nat) -> nat {
    let step = grain(n);
    half_even(n, step) * step
}

/// Which unit keeps a byte count readable: bytes, then each 1024 of the one
/// before, up to the fourth.
pub open spec fn unit_of(count: nat) -> nat {
    if count < 0x400 {
        0
    } else if count < 0x10_0000 {
        1
    } else if count < 0x4000_0000 {
        2
    } else if count < 0x100_0000_0000 {
        3
    } else {
        4
    }
}

/// How many bytes a unit holds.
pub open spec fn unit_bytes(unit: nat) -> nat {
    if unit == 0 {
        1
    } else if unit == 1 {
        0x400
    } else if unit == 2 {
        0x10_0000
    } else if unit == 3 {
        0x4000_0000
    } else {
        0x100_0000_0000
    }
}

/// The name of a unit.
pub open spec fn unit_name(unit: nat) -> Text {
    if unit == 0 {
        "B"@
    } else if unit == 1 {
        "KiB"@
    } else if unit == 2 {
        "MiB"@
    } else if unit == 3 {
        "GiB"@
    } else {
        "TiB"@
    }
}

/// A byte count in the largest unit that keeps it readable, to one decimal.
pub open spec fn bytes_text(count: nat) -> Text {
    let unit = unit_of(count);
    if unit == 0 {
        decimal_text(count) + " B"@
    } else {
        let tenths = half_even(10 * significant(count), unit_bytes(unit));
        decimal_text(tenths / 10) + "."@ + decimal_text(tenths % 10) + " "@ + unit_name(unit)
    }
}

/// A quotient rounded to the nearest whole, halves to the even one.
fn rounded(n: u128, d: u128) -> (quotient: u128)
    requires
        0 < d <= 0x100_0000_0000,
    ensures
        quotient == half_even(n as nat, d as nat),
        quotient <= n / d + 1,
{
    let quotient: u128 = n / d;
    let rest: u128 = n % d;
    if d == 1 {
        assert(rest == 0) by (nonlinear_arith)
            requires
                rest == n % d,
                d == 1,
        ;
        return quotient;
    }
    assert(quotient <= n / 2) by (nonlinear_arith)
        requires
            quotient == n / d,
            d >= 2,
            n >= 0,
    ;
    if 2 * rest > d || (2 * rest == d && quotient % 2 == 1) {
        quotient + 1
    } else {
        quotient
    }
}

/// The power of two a count is told in multiples of.
fn grain_of(n: u64) -> (step: u64)
    ensures
        step == grain(n as nat),
        1 <= step <= 0x800,
{
    if n < 0x20000000000000 {
        0x1
    } else if n < 0x40000000000000 {
        0x2
    } else if n < 0x80000000000000 {
        0x4
    } else if n < 0x100000000000000 {
        0x8
    } else if n < 0x200000000000000 {
        0x10
    } else if n < 0x400000000000000 {
        0x20
    } else if n < 0x800000000000000 {
        0x40
    } else if n < 0x1000000000000000 {
        0x80
    } else if n < 0x2000000000000000 {
        0x100
    } else if n < 0x4000000000000000 {
        0x200
    } else if n < 0x8000000000000000 {
        0x400
    } else {
        0x800
    }
}

/// A count with 53 significant bits.
fn significant_of(count: u64) -> (told: u128)
    ensures
        told == significant(count as nat),
        told <= count + 0x800,
{
    let step = grain_of(count);
    let parts = rounded(count as u128, step as u128);
    proof {
        let (n, d) = (count as int, step as int);
        assert(parts * d <= n + d) by (nonlinear_arith)
            requires
                parts <= n / d + 1,
                d >= 1,
                n >= 0,
        ;
    }
    parts * step as u128
}

/// A byte count in the largest unit that keeps it readable, to one decimal.
pub fn bytes(count: u64) -> (text: String)
    ensures
        text@ == bytes_text(count as nat),
{
    if count < 0x400 {
        let mut text = decimal(count);
        text.append(" B");
        return text;
    }
    let (size, name): (u128, &str) = if count < 0x10_0000 {
        (0x400, "KiB")
    } else if count < 0x4000_0000 {
        (0x10_0000, "MiB")
    } else if count < 0x100_0000_0000 {
        (0x4000_0000, "GiB")
    } else {
        (0x100_0000_0000, "TiB")
    };
    let told = significant_of(count);
    let tenths = rounded(10 * told, size);
    proof {
        let (n, d) = (10 * told as int, size as int);
        assert(n / d + 1 <= 0xffff_ffff_ffff_ffff) by (nonlinear_arith)
            requires
                d >= 0x400,
                0 <= n <= 10 * (0xffff_ffff_ffff_ffff + 0x800),
        ;
    }
    let mut text = decimal((tenths / 10) as u64);
    text.append(".");
    text.append(decimal((tenths % 10) as u64).as_str());
    text.append(" ");
    text.append(name);
    text
}

/// A value that may be absent.
pub open spec fn dashed(value: Option<Text>) -> Text {
    match value {
        Some(value) => value,
        None => "-"@,
    }
}

/// A value that may be absent, rendered as a dash in a table cell.
pub fn or_dash(value: Option<&str>) -> (text: &str)
    ensures
        text@ == dashed(borrowed(value)),
{
    match value {
        Some(value) => value,
        None => "-",
    }
}

/// Texts with a separator between each two.
pub open spec fn joined(texts: Seq<Text>, separator: Text) -> Text
    decreases texts.len(),
{
    if texts.len() == 0 {
        Seq::empty()
    } else if texts.len() == 1 {
        texts[0]
    } else {
        joined(texts.drop_last(), separator) + separator + texts.last()
    }
}

/// Joins texts with a separator between each two.
pub fn join(texts: &Vec<String>, separator: &str) -> (text: String)
    ensures
        text@ == joined(texts.deep_view(), separator@),
{
    let ghost all = texts.deep_view();
    if texts.len() == 0 {
        let none = String::new();
        assert(none@ =~= Seq::empty());
        return none;
    }
    let mut text = texts[0].clone();
    let mut i: usize = 1;
    assert(all.take(1)[0] == texts@[0]@);
    while i < texts.len()
        invariant
            1 <= i <= texts.len(),
            all == texts.deep_view(),
            text@ == joined(all.take(i as int), separator@),
        decreases texts.len() - i,
    {
        proof {
            assert(all.take(i + 1).drop_last() =~= all.take(i as int));
            assert(all.take(i + 1).last() == texts@[i as int]@);
        }
        text.append(separator);
        text.append(texts[i].as_str());
        i = i + 1;
    }
    assert(all.take(i as int) =~= all);
    text
}

/// What an operator is told of a store error.
pub open spec fn reported(error: ErrorView) -> Text {
    match error {
        ErrorView::Owned(store) => "another process owns the store at "@ + store
            + " (a sync is running?); retry once it releases"@,
        ErrorView::Staging(store) => "a producer is staging a body in the store at "@ + store
            + " (a frontend is open?); retry once it is done"@,
        ErrorView::Busy =>
            "another writer holds the store lock (a sync is running?); retry once it releases"@,
        error => error.message(),
    }
}

/// Turns a store error into an operator-facing message.
///
/// Lock contention is not a failure of the command, it means somebody else
/// is writing, so it reports as a sentence naming the likely cause.
pub fn report(error: &PimdirError) -> (text: String)
    ensures
        text@ == reported(error@),
{
    match error {
        PimdirError::Owned(store) => {
            let mut text = "another process owns the store at ".to_owned();
            text.append(store.as_str());
            text.append(" (a sync is running?); retry once it releases");
            text
        },
        PimdirError::Staging(store) => {
            let mut text = "a producer is staging a body in the store at ".to_owned();
            text.append(store.as_str());
            text.append(" (a frontend is open?); retry once it is done");
            text
        },
        PimdirError::Busy =>
            "another writer holds the store lock (a sync is running?); retry once it releases".to_owned(),
        _ => error.message(),
    }
}

/// Where the store is and which source to act as.
#[derive(Debug, PartialEq, Eq)]
pub struct StoreFlags {
    /// Path to the store directory, holding the database and the blob tree.
    pub store: String,
    /// Act as this source rather than the store's own.
    pub source: Option<String>,
}

impl StoreFlags {
    /// The store directory.
    pub fn dir(&self) -> (dir: &str)
        ensures
            dir@ == self.store@,
    {
        self.store.as_str()
    }

    /// Fails unless the directory really holds a store, so a mistyped path
    /// reports as a missing store instead of silently creating an empty
    /// one. `database` is where the database has to be and `found` whether
    /// a file is there.
    pub fn ensure_store(&self, database: &str, found: bool) -> (ensured: Result<(), String>)
        ensures
            match ensured {
                Ok(_) => found,
                Err(message) => !found && message@ == "no pimdir store at "@ + self.store@ + ": "@
                    + database@ + " not found"@,
            },
    {
        if found {
            return Ok(());
        }
        let mut message = "no pimdir store at ".to_owned();
        message.append(self.store.as_str());
        message.append(": ");
        message.append(database);
        message.append(" not found");
        Err(message)
    }

    /// The source a queued mutation is staged for: the flag when given,
    /// else the store's own when it has exactly one.
    ///
    /// A store syncing several sources without the flag is refused rather
    /// than guessed: creating an item for the wrong side would push it to
    /// the wrong server. A store that has synced no source at all is
    /// refused too, since there is no side to act as.
    pub fn write_source(&self, sources: &Vec<String>) -> (source: Result<String, String>)
        ensures
            match source {
                Ok(source) => match self.source {
                    Some(flag) => source@ == flag@,
                    None => sources.len() == 1 && source@ == sources.deep_view()[0],
                },
                Err(message) => self.source is None && sources.len() != 1 && message@
                    == if sources.len() == 0 {
                    "this store syncs no source yet: name the one to write as with --source"@
                } else {
                    "this store syncs several sources ("@ + joined(sources.deep_view(), ", "@)
                        + "): pick the one to write as with --source"@
                },
            },
    {
        if let Some(source) = &self.source {
            return Ok(source.clone());
        }
        if sources.len() == 1 {
            return Ok(sources[0].clone());
        }
        if sources.len() == 0 {
            return Err(
                "this store syncs no source yet: name the one to write as with --source".to_owned(),
            );
        }
        let mut message = "this store syncs several sources (".to_owned();
        message.append(join(sources, ", ").as_str());
        message.append("): pick the one to write as with --source");
        Err(message)
    }
}

/// Whether a verb that destroys data goes on.
#[derive(Clone, Copy, Debug, PartialEq, Eq, Structural)]
pub enum PimdirConsent {
    /// It goes on.
    Granted,
    /// It asks first.
    Asked,
    /// It refuses: a confirmation written into a pipe is not a
    /// confirmation.
    Refused,
}

/// Tells whether a verb that destroys data goes on, asks or refuses: it
/// refuses rather than asks when the output is JSON or not a terminal.
pub fn consent(yes: bool, json: bool, terminal: bool) -> (consent: PimdirConsent)
    ensures
        consent == if yes {
            PimdirConsent::Granted
        } else if json || !terminal {
            PimdirConsent::Refused
        } else {
            PimdirConsent::Asked
        },
{
    if yes {
        PimdirConsent::Granted
    } else if json || !terminal {
        PimdirConsent::Refused
    } else {
        PimdirConsent::Asked
    }
}

/// A count in decimal.
pub(crate) fn count_text(n: usize) -> (text: String)
    ensures
        text@ == decimal_text(n as nat),
{
    decimal(n as u64)
}

/// Joins two texts.
pub(crate) fn glue(a: &str, b: &str) -> (text: String)
    ensures
        text@ == a@ + b@,
{
    let mut text = a.to_owned();
    text.append(b);
    text
}

/// A quotient rounded half to even lies within half of the divisor, and on
/// the half it is even.
pub proof fn lemma_a_quotient_is_rounded_half_to_even(n: nat, d: nat)
    requires
        d > 0,
    ensures
        2 * (half_even(n, d) * d) <= 2 * n + d,
        2 * n <= 2 * (half_even(n, d) * d) + d,
        (2 * n == 2 * (half_even(n, d) * d) + d || 2 * (half_even(n, d) * d) == 2 * n + d)
            ==> half_even(n, d) % 2 == 0,
{
    let q = n / d;
    let r = n % d;
    assert(n == q * d + r && r < d) by (nonlinear_arith)
        requires
            d > 0,
            q == n / d,
            r == n % d,
    ;
    assert((q + 1) * d == q * d + d) by (nonlinear_arith);
}

/// Each unit is a thousand and twenty-four of the one below, and a count
/// is told in the largest unit it holds one of.
pub proof fn lemma_a_count_is_told_in_its_largest_unit(count: nat)
    ensures
        unit_bytes(0) == 1,
        unit_bytes(1) == 1_024 * unit_bytes(0),
        unit_bytes(2) == 1_024 * unit_bytes(1),
        unit_bytes(3) == 1_024 * unit_bytes(2),
        unit_bytes(4) == 1_024 * unit_bytes(3),
        unit_of(count) <= 4,
        count > 0 ==> unit_bytes(unit_of(count)) <= count,
        unit_of(count) < 4 ==> count < unit_bytes(unit_of(count) + 1),
{
}

/// A list is joined in order, with the separator between its members and
/// nowhere else.
pub proof fn lemma_a_join_stands_between(texts: Seq<Text>, last: Text, separator: Text)
    ensures
        joined(Seq::empty(), separator).len() == 0,
        joined(seq![last], separator) == last,
        texts.len() > 0 ==> joined(texts.push(last), separator) == joined(texts, separator)
            + separator + last,
{
    assert(texts.push(last).drop_last() =~= texts);
}

/// What is not there is told by a dash, and what is by itself.
pub proof fn lemma_a_dash_stands_for_nothing(value: Text)
    ensures
        dashed(Some(value)) == value,
        dashed(None) == "-"@,
{
}

} // verus!

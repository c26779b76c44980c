//! # The `check` verb
//!
//! It reports what should not happen: a refcount that disagrees with the
//! references justifying it, a dangling row, an object row whose body is
//! missing. An orphan blob is the benign one, a file no row references.
//!
//! A fix repairs, which is not reclaiming: it recomputes the drifted
//! refcounts and clears the bindings whose item is gone. Nothing else is
//! touched, a wrong repair being worse than a reported inconsistency.

use crate::cli::{bytes, bytes_text, count_text, glue};
use crate::codec::{push_signed, signed_text};
use crate::list::{extend_with, push_to};
use crate::scan::decimal_text;
use crate::text::Text;
use crate::text_map::{in_order, TextSet};
use vstd::prelude::*;
use vstd::string::*;

verus! {

/// How many entries of each kind the text output prints before summarising
/// the rest.
pub const SHOWN: usize = 20;

/// One blob file no object row references.
#[derive(Debug, PartialEq, Eq)]
pub struct OrphanBlob {
    /// The hash its filename claims.
    pub hash: String,
    /// Its size on disk.
    pub size: u64,
    /// Where it sits.
    pub path: String,
}

/// What a [`OrphanBlob`] says, by value.
#[verifier::ext_equal]
pub struct OrphanBlobView {
    pub hash: Text,
    pub size: u64,
    pub path: Text,
}

impl View for OrphanBlob {
    type V = OrphanBlobView;

    open spec fn view(&self) -> OrphanBlobView {
        OrphanBlobView {
            hash: self.hash@,
            size: self.size,
            path: self.path@,
        }
    }
}

impl DeepView for OrphanBlob {
    type V = OrphanBlobView;

    open spec fn deep_view(&self) -> OrphanBlobView {
        self@
    }
}

impl Clone for OrphanBlob {
    fn clone(&self) -> (copy: Self)
        ensures
            copy@ == self@,
    {
        OrphanBlob {
            hash: self.hash.clone(),
            size: self.size,
            path: self.path.clone(),
        }
    }
}

/// One object whose refcount disagrees with the references justifying it.
#[derive(Debug, PartialEq, Eq)]
pub struct RefcountDrift {
    /// The object's hash.
    pub hash: String,
    /// The refcount the row stores.
    pub stored: i64,
    /// The references actually pointing at it.
    pub expected: i64,
}

/// What a [`RefcountDrift`] says, by value.
#[verifier::ext_equal]
pub struct RefcountDriftView {
    pub hash: Text,
    pub stored: i64,
    pub expected: i64,
}

impl View for RefcountDrift {
    type V = RefcountDriftView;

    open spec fn view(&self) -> RefcountDriftView {
        RefcountDriftView {
            hash: self.hash@,
            stored: self.stored,
            expected: self.expected,
        }
    }
}

impl DeepView for RefcountDrift {
    type V = RefcountDriftView;

    open spec fn deep_view(&self) -> RefcountDriftView {
        self@
    }
}

impl Clone for RefcountDrift {
    fn clone(&self) -> (copy: Self)
        ensures
            copy@ == self@,
    {
        RefcountDrift {
            hash: self.hash.clone(),
            stored: self.stored,
            expected: self.expected,
        }
    }
}

/// One row pointing at something absent.
#[derive(Debug, PartialEq, Eq)]
pub struct DanglingRow {
    /// The table the row belongs to.
    pub kind: String,
    /// The row, as its key.
    pub row: String,
    /// What it points at.
    pub target: String,
}

/// What a [`DanglingRow`] says, by value.
#[verifier::ext_equal]
pub struct DanglingRowView {
    pub kind: Text,
    pub row: Text,
    pub target: Text,
}

impl View for DanglingRow {
    type V = DanglingRowView;

    open spec fn view(&self) -> DanglingRowView {
        DanglingRowView {
            kind: self.kind@,
            row: self.row@,
            target: self.target@,
        }
    }
}

impl DeepView for DanglingRow {
    type V = DanglingRowView;

    open spec fn deep_view(&self) -> DanglingRowView {
        self@
    }
}

impl Clone for DanglingRow {
    fn clone(&self) -> (copy: Self)
        ensures
            copy@ == self@,
    {
        DanglingRow {
            kind: self.kind.clone(),
            row: self.row.clone(),
            target: self.target.clone(),
        }
    }
}

/// The minted keys one collection holds.
#[derive(Debug, PartialEq, Eq)]
pub struct MintedKeys {
    /// The collection.
    pub collection: String,
    /// How many of its items sit under a minted key.
    pub items: i64,
}

/// What a [`MintedKeys`] says, by value.
#[verifier::ext_equal]
pub struct MintedKeysView {
    pub collection: Text,
    pub items: i64,
}

impl View for MintedKeys {
    type V = MintedKeysView;

    open spec fn view(&self) -> MintedKeysView {
        MintedKeysView {
            collection: self.collection@,
            items: self.items,
        }
    }
}

impl DeepView for MintedKeys {
    type V = MintedKeysView;

    open spec fn deep_view(&self) -> MintedKeysView {
        self@
    }
}

impl Clone for MintedKeys {
    fn clone(&self) -> (copy: Self)
        ensures
            copy@ == self@,
    {
        MintedKeys {
            collection: self.collection.clone(),
            items: self.items,
        }
    }
}

/// The `check` output.
#[derive(Debug, PartialEq, Eq)]
pub struct CheckOutput {
    /// Blob files no object row references.
    pub orphans: Vec<OrphanBlob>,
    /// What they weigh in total.
    pub orphan_bytes: u64,
    /// Object rows whose blob file is missing.
    pub missing: Vec<String>,
    /// Objects whose refcount disagrees with their references.
    pub drift: Vec<RefcountDrift>,
    /// Rows pointing at something absent.
    pub dangling: Vec<DanglingRow>,
    /// Minted keys per collection, the second copies of an identity a source
    /// holds twice. Informational, never a defect.
    pub minted: Vec<MintedKeys>,
    /// Refcounts a fix recomputed from the pointers justifying them.
    pub repaired: usize,
    /// Dangling bindings a fix cleared.
    pub cleared: usize,
}

/// What a [`CheckOutput`] says, by value.
#[verifier::ext_equal]
pub struct CheckOutputView {
    pub orphans: Seq<OrphanBlobView>,
    pub orphan_bytes: u64,
    pub missing: Seq<Text>,
    pub drift: Seq<RefcountDriftView>,
    pub dangling: Seq<DanglingRowView>,
    pub minted: Seq<MintedKeysView>,
    pub repaired: usize,
    pub cleared: usize,
}

impl View for CheckOutput {
    type V = CheckOutputView;

    open spec fn view(&self) -> CheckOutputView {
        CheckOutputView {
            orphans: self.orphans.deep_view(),
            orphan_bytes: self.orphan_bytes,
            missing: self.missing.deep_view(),
            drift: self.drift.deep_view(),
            dangling: self.dangling.deep_view(),
            minted: self.minted.deep_view(),
            repaired: self.repaired,
            cleared: self.cleared,
        }
    }
}

impl DeepView for CheckOutput {
    type V = CheckOutputView;

    open spec fn deep_view(&self) -> CheckOutputView {
        self@
    }
}

/// The files no row indexes, in order.
pub open spec fn unindexed(files: Seq<OrphanBlobView>, indexed: Set<Text>) -> Seq<OrphanBlobView>
    decreases files.len(),
{
    if files.len() == 0 {
        Seq::empty()
    } else {
        let rest = unindexed(files.drop_last(), indexed);
        if indexed.contains(files.last().hash) {
            rest
        } else {
            rest.push(files.last())
        }
    }
}

/// What some files weigh.
pub open spec fn weight_of(files: Seq<OrphanBlobView>) -> int
    decreases files.len(),
{
    if files.len() == 0 {
        0
    } else {
        weight_of(files.drop_last()) + files.last().size
    }
}

/// Whether a file stands under a hash.
pub open spec fn on_disk(files: Seq<OrphanBlobView>, hash: Text) -> bool {
    exists|i: int| 0 <= i < files.len() && (#[trigger] files[i]).hash == hash
}

/// The hashes no file stands under, in order.
pub open spec fn bodiless(files: Seq<OrphanBlobView>, hashes: Seq<Text>) -> Seq<Text>
    decreases hashes.len(),
{
    if hashes.len() == 0 {
        Seq::empty()
    } else {
        let rest = bodiless(files, hashes.drop_last());
        if on_disk(files, hashes.last()) {
            rest
        } else {
            rest.push(hashes.last())
        }
    }
}

proof fn lemma_weights(files: Seq<OrphanBlobView>, indexed: Set<Text>, i: int)
    requires
        0 <= i <= files.len(),
    ensures
        0 <= weight_of(unindexed(files.take(i), indexed)) <= weight_of(files.take(i)) <= weight_of(
            files,
        ),
    decreases files.len() - i, i,
{
    lemma_unindexed_weigh_less(files.take(i), indexed);
    if i < files.len() {
        assert(files.take(i + 1).drop_last() =~= files.take(i));
        lemma_weights(files, indexed, i + 1);
    } else {
        assert(files.take(i) =~= files);
    }
}

proof fn lemma_unindexed_weigh_less(files: Seq<OrphanBlobView>, indexed: Set<Text>)
    ensures
        0 <= weight_of(unindexed(files, indexed)) <= weight_of(files),
    decreases files.len(),
{
    if files.len() > 0 {
        lemma_unindexed_weigh_less(files.drop_last(), indexed);
        let rest = unindexed(files.drop_last(), indexed);
        assert(rest.push(files.last()).drop_last() =~= rest);
    }
}

/// The files no row indexes and what they weigh.
fn find_orphans(files: &Vec<OrphanBlob>, indexed: &TextSet) -> (found: (Vec<OrphanBlob>, u64))
    requires
        weight_of(files.deep_view()) <= u64::MAX,
    ensures
        found.0.deep_view() == unindexed(files.deep_view(), indexed@),
        found.1 == weight_of(unindexed(files.deep_view(), indexed@)),
{
    let ghost all = files.deep_view();
    let mut orphans: Vec<OrphanBlob> = Vec::new();
    let mut total: u64 = 0;
    let mut i: usize = 0;
    assert(orphans.deep_view() =~= Seq::empty());
    while i < files.len()
        invariant
            i <= files.len(),
            all == files.deep_view(),
            weight_of(all) <= u64::MAX,
            orphans.deep_view() == unindexed(all.take(i as int), indexed@),
            total == weight_of(orphans.deep_view()),
        decreases files.len() - i,
    {
        let ghost before = orphans.deep_view();
        proof {
            assert(all.take(i + 1).drop_last() =~= all.take(i as int));
            assert(all.take(i + 1).last() == files@[i as int]@);
            lemma_weights(all, indexed@, i as int);
            lemma_weights(all, indexed@, i + 1);
        }
        if !indexed.contains(files[i].hash.as_str()) {
            total = total + files[i].size;
            push_to(&mut orphans, files[i].clone());
            assert(orphans.deep_view().drop_last() =~= before);
        }
        i = i + 1;
    }
    assert(all.take(i as int) =~= all);
    (orphans, total)
}

/// The hashes no file stands under.
fn find_missing(files: &Vec<OrphanBlob>, indexed: &TextSet) -> (missing: Vec<String>)
    ensures
        missing.deep_view() == bodiless(files.deep_view(), in_order(indexed@)),
{
    let ghost all = files.deep_view();
    let mut names = TextSet::new();
    let mut i: usize = 0;
    while i < files.len()
        invariant
            i <= files.len(),
            all == files.deep_view(),
            forall|hash: Text| #[trigger]
                names@.contains(hash) <==> exists|j: int| 0 <= j < i && (#[trigger] all[j]).hash == hash,
        decreases files.len() - i,
    {
        let ghost before = names@;
        assert(all[i as int] == files@[i as int]@);
        names.insert(files[i].hash.clone());
        assert forall|hash: Text| #[trigger] names@.contains(hash) <==> exists|j: int|
            0 <= j < i + 1 && (#[trigger] all[j]).hash == hash by {
            if names@.contains(hash) && !before.contains(hash) {
                assert(all[i as int].hash == hash);
            }
        }
        i = i + 1;
    }
    let mut missing: Vec<String> = Vec::new();
    let n: usize = indexed.len();
    let ghost hashes = indexed.list();
    let mut k: usize = 0;
    assert(missing.deep_view() =~= Seq::empty());
    while k < n
        invariant
            k <= n,
            n == hashes.len(),
            hashes == indexed.list(),
            all == files.deep_view(),
            forall|hash: Text| #[trigger] names@.contains(hash) <==> on_disk(all, hash),
            missing.deep_view() == bodiless(all, hashes.take(k as int)),
        decreases n - k,
    {
        let hash = indexed.at(k);
        proof {
            assert(hashes.take(k + 1).drop_last() =~= hashes.take(k as int));
            assert(hashes.take(k + 1).last() == hash@);
        }
        if !names.contains(hash.as_str()) {
            push_to(&mut missing, hash.clone());
        }
        k = k + 1;
    }
    assert(hashes.take(k as int) =~= hashes);
    missing
}

/// The first entries of a list, and how many more there are.
pub open spec fn capped(rows: Seq<Text>) -> Seq<Text> {
    if rows.len() > SHOWN {
        rows.take(SHOWN as int).push(
            "   … and "@ + decimal_text((rows.len() - SHOWN) as nat)
                + " more (use --json for the full list)"@,
        )
    } else {
        rows
    }
}

/// A heading over a list, where the list holds anything.
pub open spec fn section(heading: Text, rows: Seq<Text>) -> Seq<Text> {
    if rows.len() == 0 {
        Seq::empty()
    } else {
        seq![heading] + capped(rows)
    }
}

/// Adds a heading over a list, where the list holds anything, stating how
/// many entries a capped list left out, so a listing is never silently
/// short.
fn add_section(lines: &mut Vec<String>, heading: String, rows: Vec<String>)
    ensures
        final(lines).deep_view() == old(lines).deep_view() + section(heading@, rows.deep_view()),
{
    let ghost start = lines.deep_view();
    let ghost all = rows.deep_view();
    let total: usize = rows.len();
    if total == 0 {
        assert(lines.deep_view() =~= start + section(heading@, all));
        return ;
    }
    push_to(lines, heading);
    let mut rows = rows;
    if total > SHOWN {
        rows.truncate(SHOWN);
        assert(rows.deep_view() =~= all.take(SHOWN as int));
        let mut rest = "   … and ".to_owned();
        rest.append(count_text(total - SHOWN).as_str());
        rest.append(" more (use --json for the full list)");
        push_to(&mut rows, rest);
    }
    assert(rows.deep_view() =~= capped(all));
    extend_with(lines, rows);
    assert(lines.deep_view() =~= start + section(heading@, all));
}

/// A count and what it counts.
pub open spec fn counted(n: nat, what: Text) -> Text {
    decimal_text(n) + what
}

/// An orphan as the report names it.
pub open spec fn orphan_line(orphan: OrphanBlobView) -> Text {
    " - "@ + orphan.hash + " ("@ + bytes_text(orphan.size as nat) + ")"@
}

/// A drifted refcount as the report names it.
pub open spec fn drift_line(drift: RefcountDriftView) -> Text {
    " - "@ + drift.hash + ": stored "@ + signed_text(drift.stored as int) + ", references "@
        + signed_text(drift.expected as int)
}

/// A dangling row as the report names it.
pub open spec fn dangling_line(row: DanglingRowView) -> Text {
    " - "@ + row.kind + " "@ + row.row + " points at a missing "@ + row.target
}

/// A collection's minted keys as the report names them.
pub open spec fn minted_line(minted: MintedKeysView) -> Text {
    " - "@ + minted.collection + ": "@ + signed_text(minted.items as int) + " item(s)"@
}

/// How many problems a check found.
pub open spec fn problems_in(check: CheckOutputView) -> nat {
    check.orphans.len() + check.missing.len() + check.drift.len() + check.dangling.len()
}

/// What a check says, line by line.
pub open spec fn check_lines(check: CheckOutputView) -> Seq<Text> {
    let orphans = section(
        decimal_text(check.orphans.len()) + " orphan blob file(s), "@ + bytes_text(
            check.orphan_bytes as nat,
        ) + " not referenced by any object row:"@,
        check.orphans.map_values(|x: OrphanBlobView| orphan_line(x)),
    );
    (if problems_in(check) == 0 {
        seq!["This store is consistent: no orphan blob, no refcount drift, no dangling row"@]
    } else {
        Seq::empty()
    }) + orphans + (if check.orphans.len() > 0 {
        seq!["   Reclaim them with `pimdir gc`"@]
    } else {
        Seq::empty()
    }) + section(
        counted(
            check.missing.len(),
            " object row(s) whose body is missing from the blob store:"@,
        ),
        check.missing.map_values(|x: Text| " - "@ + x),
    ) + section(
        counted(check.drift.len(), " object(s) with a drifted refcount:"@),
        check.drift.map_values(|x: RefcountDriftView| drift_line(x)),
    ) + section(
        counted(check.dangling.len(), " dangling row(s):"@),
        check.dangling.map_values(|x: DanglingRowView| dangling_line(x)),
    ) + section(
        "Minted keys, the second copies of an identity a source holds twice:"@,
        check.minted.map_values(|x: MintedKeysView| minted_line(x)),
    ) + (if check.repaired > 0 || check.cleared > 0 {
        seq![
            "Repaired "@ + decimal_text(check.repaired as nat) + " refcount(s) and cleared "@
                + decimal_text(check.cleared as nat) + " dangling binding(s)"@,
        ]
    } else {
        Seq::empty()
    })
}

/// An orphan as the report names it.
fn orphan_text(orphan: &OrphanBlob) -> (text: String)
    ensures
        text@ == orphan_line(orphan@),
{
    let mut text = " - ".to_owned();
    text.append(orphan.hash.as_str());
    text.append(" (");
    text.append(bytes(orphan.size).as_str());
    text.append(")");
    text
}

/// A drifted refcount as the report names it.
fn drift_text(drift: &RefcountDrift) -> (text: String)
    ensures
        text@ == drift_line(drift@),
{
    let mut text = " - ".to_owned();
    text.append(drift.hash.as_str());
    text.append(": stored ");
    push_signed(&mut text, drift.stored);
    text.append(", references ");
    push_signed(&mut text, drift.expected);
    text
}

/// A dangling row as the report names it.
fn dangling_text(row: &DanglingRow) -> (text: String)
    ensures
        text@ == dangling_line(row@),
{
    let mut text = " - ".to_owned();
    text.append(row.kind.as_str());
    text.append(" ");
    text.append(row.row.as_str());
    text.append(" points at a missing ");
    text.append(row.target.as_str());
    text
}

/// A collection's minted keys as the report names them.
fn minted_text(minted: &MintedKeys) -> (text: String)
    ensures
        text@ == minted_line(minted@),
{
    let mut text = " - ".to_owned();
    text.append(minted.collection.as_str());
    text.append(": ");
    push_signed(&mut text, minted.items);
    text.append(" item(s)");
    text
}

/// The orphans as the report names them.
fn orphan_rows(list: &Vec<OrphanBlob>) -> (out: Vec<String>)
    ensures
        out.deep_view() == list.deep_view().map_values(|x: OrphanBlobView| orphan_line(x)),
{
    let ghost all = list.deep_view();
    let ghost told = |x: OrphanBlobView| orphan_line(x);
    let mut out: Vec<String> = Vec::new();
    let mut i: usize = 0;
    assert(out.deep_view() =~= all.take(0).map_values(told));
    while i < list.len()
        invariant
            i <= list.len(),
            all == list.deep_view(),
            told == (|x: OrphanBlobView| orphan_line(x)),
            out.deep_view() == all.take(i as int).map_values(told),
        decreases list.len() - i,
    {
        assert(all[i as int] == list@[i as int].deep_view());
        push_to(&mut out, orphan_text(&list[i]));
        assert(out.deep_view() =~= all.take(i + 1).map_values(told));
        i = i + 1;
    }
    assert(all.take(i as int) =~= all);
    out
}

/// The missing bodies as the report names them.
fn missing_rows(list: &Vec<String>) -> (out: Vec<String>)
    ensures
        out.deep_view() == list.deep_view().map_values(|x: Text| " - "@ + x),
{
    let ghost all = list.deep_view();
    let ghost told = |x: Text| " - "@ + x;
    let mut out: Vec<String> = Vec::new();
    let mut i: usize = 0;
    assert(out.deep_view() =~= all.take(0).map_values(told));
    while i < list.len()
        invariant
            i <= list.len(),
            all == list.deep_view(),
            told == (|x: Text| " - "@ + x),
            out.deep_view() == all.take(i as int).map_values(told),
        decreases list.len() - i,
    {
        assert(all[i as int] == list@[i as int].deep_view());
        push_to(&mut out, glue(" - ", list[i].as_str()));
        assert(out.deep_view() =~= all.take(i + 1).map_values(told));
        i = i + 1;
    }
    assert(all.take(i as int) =~= all);
    out
}

/// The drifted refcounts as the report names them.
fn drift_rows(list: &Vec<RefcountDrift>) -> (out: Vec<String>)
    ensures
        out.deep_view() == list.deep_view().map_values(|x: RefcountDriftView| drift_line(x)),
{
    let ghost all = list.deep_view();
    let ghost told = |x: RefcountDriftView| drift_line(x);
    let mut out: Vec<String> = Vec::new();
    let mut i: usize = 0;
    assert(out.deep_view() =~= all.take(0).map_values(told));
    while i < list.len()
        invariant
            i <= list.len(),
            all == list.deep_view(),
            told == (|x: RefcountDriftView| drift_line(x)),
            out.deep_view() == all.take(i as int).map_values(told),
        decreases list.len() - i,
    {
        assert(all[i as int] == list@[i as int].deep_view());
        push_to(&mut out, drift_text(&list[i]));
        assert(out.deep_view() =~= all.take(i + 1).map_values(told));
        i = i + 1;
    }
    assert(all.take(i as int) =~= all);
    out
}

/// The dangling rows as the report names them.
fn dangling_rows(list: &Vec<DanglingRow>) -> (out: Vec<String>)
    ensures
        out.deep_view() == list.deep_view().map_values(|x: DanglingRowView| dangling_line(x)),
{
    let ghost all = list.deep_view();
    let ghost told = |x: DanglingRowView| dangling_line(x);
    let mut out: Vec<String> = Vec::new();
    let mut i: usize = 0;
    assert(out.deep_view() =~= all.take(0).map_values(told));
    while i < list.len()
        invariant
            i <= list.len(),
            all == list.deep_view(),
            told == (|x: DanglingRowView| dangling_line(x)),
            out.deep_view() == all.take(i as int).map_values(told),
        decreases list.len() - i,
    {
        assert(all[i as int] == list@[i as int].deep_view());
        push_to(&mut out, dangling_text(&list[i]));
        assert(out.deep_view() =~= all.take(i + 1).map_values(told));
        i = i + 1;
    }
    assert(all.take(i as int) =~= all);
    out
}

/// The minted keys as the report names them.
fn minted_rows(list: &Vec<MintedKeys>) -> (out: Vec<String>)
    ensures
        out.deep_view() == list.deep_view().map_values(|x: MintedKeysView| minted_line(x)),
{
    let ghost all = list.deep_view();
    let ghost told = |x: MintedKeysView| minted_line(x);
    let mut out: Vec<String> = Vec::new();
    let mut i: usize = 0;
    assert(out.deep_view() =~= all.take(0).map_values(told));
    while i < list.len()
        invariant
            i <= list.len(),
            all == list.deep_view(),
            told == (|x: MintedKeysView| minted_line(x)),
            out.deep_view() == all.take(i as int).map_values(told),
        decreases list.len() - i,
    {
        assert(all[i as int] == list@[i as int].deep_view());
        push_to(&mut out, minted_text(&list[i]));
        assert(out.deep_view() =~= all.take(i + 1).map_values(told));
        i = i + 1;
    }
    assert(all.take(i as int) =~= all);
    out
}

impl CheckOutput {
    /// Works out what a check found: the blob files no row indexes, the
    /// rows whose file is missing, and what the index says of itself.
    pub fn new(
        files: &Vec<OrphanBlob>,
        indexed: &TextSet,
        drift: Vec<RefcountDrift>,
        dangling: Vec<DanglingRow>,
        minted: Vec<MintedKeys>,
        repaired: usize,
        cleared: usize,
    ) -> (check: Self)
        requires
            weight_of(files.deep_view()) <= u64::MAX,
        ensures
            check@.orphans == unindexed(files.deep_view(), indexed@),
            check@.orphan_bytes == weight_of(unindexed(files.deep_view(), indexed@)),
            check@.missing == bodiless(files.deep_view(), in_order(indexed@)),
            check@.drift == drift.deep_view(),
            check@.dangling == dangling.deep_view(),
            check@.minted == minted.deep_view(),
            check@.repaired == repaired,
            check@.cleared == cleared,
    {
        let (orphans, orphan_bytes) = find_orphans(files, indexed);
        let missing = find_missing(files, indexed);
        CheckOutput {
            orphans,
            orphan_bytes,
            missing,
            drift,
            dangling,
            minted,
            repaired,
            cleared,
        }
    }

    /// How many problems the check found.
    pub fn problems(&self) -> (count: u128)
        ensures
            count == problems_in(self@),
    {
        assert(self.orphans.len() == self@.orphans.len());
        assert(self.missing.len() == self@.missing.len());
        assert(self.drift.len() == self@.drift.len());
        assert(self.dangling.len() == self@.dangling.len());
        self.orphans.len() as u128 + self.missing.len() as u128 + self.drift.len() as u128
            + self.dangling.len() as u128
    }

    /// Whether a fix has anything to repair: a drifted refcount or a
    /// dangling row.
    pub fn repairs(drift: &Vec<RefcountDrift>, dangling: &Vec<DanglingRow>, fix: bool) -> (yes: bool)
        ensures
            yes == (fix && (drift.len() > 0 || dangling.len() > 0)),
    {
        fix && (drift.len() > 0 || dangling.len() > 0)
    }

    /// What the check says, line by line.
    pub fn lines(&self) -> (lines: Vec<String>)
        ensures
            lines.deep_view() == check_lines(self@),
    {
        let ghost view = self@;
        let mut lines: Vec<String> = Vec::new();
        let none = self.problems() == 0;
        if none {
            push_to(
                &mut lines,
                "This store is consistent: no orphan blob, no refcount drift, no dangling row".to_owned(),
            );
        }
        let ghost l0: Seq<Text> = if none {
            seq!["This store is consistent: no orphan blob, no refcount drift, no dangling row"@]
        } else {
            Seq::empty()
        };
        assert(lines.deep_view() =~= l0);
        assert(self.orphans.len() == view.orphans.len());
        assert(self.missing.len() == view.missing.len());
        assert(self.drift.len() == view.drift.len());
        assert(self.dangling.len() == view.dangling.len());
        let mut heading = count_text(self.orphans.len());
        heading.append(" orphan blob file(s), ");
        heading.append(bytes(self.orphan_bytes).as_str());
        heading.append(" not referenced by any object row:");
        add_section(&mut lines, heading, orphan_rows(&self.orphans));
        let ghost l1 = lines.deep_view();
        if self.orphans.len() > 0 {
            push_to(&mut lines, "   Reclaim them with `pimdir gc`".to_owned());
        }
        let ghost l2: Seq<Text> = if view.orphans.len() > 0 {
            seq!["   Reclaim them with `pimdir gc`"@]
        } else {
            Seq::empty()
        };
        assert(lines.deep_view() =~= l1 + l2);
        add_section(
            &mut lines,
            glue(
                count_text(self.missing.len()).as_str(),
                " object row(s) whose body is missing from the blob store:",
            ),
            missing_rows(&self.missing),
        );
        add_section(
            &mut lines,
            glue(
                count_text(self.drift.len()).as_str(),
                " object(s) with a drifted refcount:",
            ),
            drift_rows(&self.drift),
        );
        add_section(
            &mut lines,
            glue(count_text(self.dangling.len()).as_str(), " dangling row(s):"),
            dangling_rows(&self.dangling),
        );
        add_section(
            &mut lines,
            "Minted keys, the second copies of an identity a source holds twice:".to_owned(),
            minted_rows(&self.minted),
        );
        let ghost l3 = lines.deep_view();
        if self.repaired > 0 || self.cleared > 0 {
            let mut text = "Repaired ".to_owned();
            text.append(count_text(self.repaired).as_str());
            text.append(" refcount(s) and cleared ");
            text.append(count_text(self.cleared).as_str());
            text.append(" dangling binding(s)");
            push_to(&mut lines, text);
        }
        let ghost l4: Seq<Text> = if view.repaired > 0 || view.cleared > 0 {
            seq![
                "Repaired "@ + decimal_text(view.repaired as nat) + " refcount(s) and cleared "@
                    + decimal_text(view.cleared as nat) + " dangling binding(s)"@,
            ]
        } else {
            Seq::empty()
        };
        assert(lines.deep_view() =~= l3 + l4);
        lines
    }
}

/// A check that found nothing says so, and nothing else unless keys were
/// minted or something was repaired.
pub proof fn lemma_a_sound_store_is_told_so(check: CheckOutputView)
    requires
        problems_in(check) == 0,
        check.minted.len() == 0,
        check.repaired == 0,
        check.cleared == 0,
    ensures
        check_lines(check) == seq![
            "This store is consistent: no orphan blob, no refcount drift, no dangling row"@,
        ],
{
    assert(check_lines(check) =~= seq![
        "This store is consistent: no orphan blob, no refcount drift, no dangling row"@,
    ]);
}

/// A file is an orphan exactly where no row indexes its hash.
pub proof fn lemma_every_orphan_is_listed(
    files: Seq<OrphanBlobView>,
    indexed: Set<Text>,
    file: OrphanBlobView,
)
    ensures
        unindexed(files, indexed).contains(file) <==> (files.contains(file) && !indexed.contains(
            file.hash,
        )),
    decreases files.len(),
{
    if files.len() > 0 {
        let rest = files.drop_last();
        let before = unindexed(rest, indexed);
        let all = unindexed(files, indexed);
        let last = files.len() - 1;
        lemma_every_orphan_is_listed(rest, indexed, file);
        if all.contains(file) {
            let k = choose|k: int| 0 <= k < all.len() && all[k] == file;
            if k < before.len() {
                assert(before[k] == file);
                let i = choose|i: int| 0 <= i < rest.len() && rest[i] == file;
                assert(files[i] == file);
            } else {
                assert(files[last] == file);
            }
        }
        if files.contains(file) && !indexed.contains(file.hash) {
            let i = choose|i: int| 0 <= i < files.len() && files[i] == file;
            if i < last {
                assert(rest[i] == file);
                let k = choose|k: int| 0 <= k < before.len() && before[k] == file;
                assert(all[k] == file);
            } else {
                assert(all[all.len() - 1] == file);
            }
        }
    }
}

/// A body is missing exactly where a row names it and no file holds it.
pub proof fn lemma_every_missing_body_is_listed(
    files: Seq<OrphanBlobView>,
    hashes: Seq<Text>,
    hash: Text,
)
    ensures
        bodiless(files, hashes).contains(hash) <==> (hashes.contains(hash) && !(exists|i: int|
            0 <= i < files.len() && (#[trigger] files[i]).hash == hash)),
    decreases hashes.len(),
{
    if hashes.len() > 0 {
        let rest = hashes.drop_last();
        let before = bodiless(files, rest);
        let all = bodiless(files, hashes);
        let last = hashes.len() - 1;
        lemma_every_missing_body_is_listed(files, rest, hash);
        if all.contains(hash) {
            let k = choose|k: int| 0 <= k < all.len() && all[k] == hash;
            if k < before.len() {
                assert(before[k] == hash);
                let i = choose|i: int| 0 <= i < rest.len() && rest[i] == hash;
                assert(hashes[i] == hash);
            } else {
                assert(hashes[last] == hash);
            }
        }
        if hashes.contains(hash) && !on_disk(files, hash) {
            let i = choose|i: int| 0 <= i < hashes.len() && hashes[i] == hash;
            if i < last {
                assert(rest[i] == hash);
                let k = choose|k: int| 0 <= k < before.len() && before[k] == hash;
                assert(all[k] == hash);
            } else {
                assert(all[all.len() - 1] == hash);
            }
        }
    }
}

/// A store is sound only where it has no orphan, no missing body, no
/// drifted count and no dangling row; minted keys are no problem.
pub proof fn lemma_what_counts_as_a_problem(check: CheckOutputView)
    ensures
        problems_in(check) == 0 <==> (check.orphans.len() == 0 && check.missing.len() == 0
            && check.drift.len() == 0 && check.dangling.len() == 0),
        problems_in(check) >= check.orphans.len(),
        problems_in(check) >= check.missing.len(),
        problems_in(check) >= check.drift.len(),
        problems_in(check) >= check.dangling.len(),
{
}

/// A section shows its rows under its heading, the first of them where
/// there are too many, with how many are left, and is not there at all
/// without rows.
pub proof fn lemma_a_section_shows_its_rows(heading: Text, rows: Seq<Text>, i: int)
    requires
        0 <= i < rows.len(),
    ensures
        section(heading, rows)[0] == heading,
        i < SHOWN ==> section(heading, rows)[1 + i] == rows[i],
        rows.len() <= SHOWN ==> section(heading, rows).len() == 1 + rows.len(),
        rows.len() > SHOWN ==> section(heading, rows).len() == 2 + SHOWN,
        section(heading, Seq::empty()).len() == 0,
{
}

} // verus!

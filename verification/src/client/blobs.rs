//! # Blob directory
//!
//! The content-addressed body files beside the database: where a body lies,
//! which files of the tree are bodies, which bodies a batch carries, and
//! which ones nothing references any more.

use crate::change::{PimdirWriteOp, WriteOpView};
use crate::hash::{PimdirHashAlgo, PimdirHasher};
use crate::list::push_to;
use crate::object::PimdirHash;
use crate::scan::{chars_of, text_of};
use crate::text::{clone_bytes, text_same, Text};
use crate::text_map::TextSet;
use vstd::prelude::*;
use vstd::slice::*;
use vstd::string::*;

verus! {

/// One body as it sits in the blob tree.
#[derive(Debug, PartialEq, Eq)]
pub struct PimdirBlobFile {
    /// The hash its file name claims, unverified.
    pub hash: String,
    /// Its size on disk.
    pub size: u64,
}

/// What a [`PimdirBlobFile`] says, by value.
#[verifier::ext_equal]
pub struct BlobFileView {
    pub hash: Text,
    pub size: u64,
}

impl View for PimdirBlobFile {
    type V = BlobFileView;

    open spec fn view(&self) -> BlobFileView {
        BlobFileView {
            hash: self.hash@,
            size: self.size,
        }
    }
}

impl DeepView for PimdirBlobFile {
    type V = BlobFileView;

    open spec fn deep_view(&self) -> BlobFileView {
        self@
    }
}

impl Clone for PimdirBlobFile {
    fn clone(&self) -> (copy: Self)
        ensures
            copy@ == self@,
    {
        PimdirBlobFile {
            hash: self.hash.clone(),
            size: self.size,
        }
    }
}

/// A body to write under its hash.
#[derive(Debug, PartialEq, Eq)]
pub struct PimdirBody {
    /// The hash.
    pub hash: PimdirHash,
    /// The bytes.
    pub bytes: Vec<u8>,
}

/// What a [`PimdirBody`] says, by value.
#[verifier::ext_equal]
pub struct BodyView {
    pub hash: Text,
    pub bytes: Seq<u8>,
}

impl View for PimdirBody {
    type V = BodyView;

    open spec fn view(&self) -> BodyView {
        BodyView {
            hash: self.hash@,
            bytes: self.bytes@,
        }
    }
}

impl DeepView for PimdirBody {
    type V = BodyView;

    open spec fn deep_view(&self) -> BodyView {
        self@
    }
}

impl Clone for PimdirBody {
    fn clone(&self) -> (copy: Self)
        ensures
            copy@ == self@,
    {
        PimdirBody {
            hash: self.hash.clone(),
            bytes: clone_bytes(&self.bytes),
        }
    }
}

/// A file of the blob tree: its path below the objects directory, name by
/// name, and its size.
#[derive(Debug, PartialEq, Eq)]
pub struct PimdirTreeFile {
    /// The path.
    pub path: Vec<String>,
    /// The size on disk.
    pub size: u64,
}

/// What a [`PimdirTreeFile`] says, by value.
#[verifier::ext_equal]
pub struct TreeFileView {
    pub path: Seq<Text>,
    pub size: u64,
}

impl View for PimdirTreeFile {
    type V = TreeFileView;

    open spec fn view(&self) -> TreeFileView {
        TreeFileView {
            path: self.path.deep_view(),
            size: self.size,
        }
    }
}

impl DeepView for PimdirTreeFile {
    type V = TreeFileView;

    open spec fn deep_view(&self) -> TreeFileView {
        self@
    }
}

/// What a collection of garbage reclaimed.
#[derive(Clone, Copy, Debug, Eq, PartialEq)]
pub struct PimdirGcReport {
    /// The object rows nothing referenced.
    pub objects: usize,
    /// The body files no row indexed.
    pub blobs: usize,
    /// What those files weighed.
    pub bytes: u64,
}

impl Default for PimdirGcReport {
    fn default() -> (report: Self)
        ensures
            report.objects == 0,
            report.blobs == 0,
            report.bytes == 0,
    {
        PimdirGcReport { objects: 0, blobs: 0, bytes: 0 }
    }
}

/// How many bytes a character takes in UTF-8.
pub open spec fn byte_width(c: char) -> nat {
    if (c as u32) < 0x80 {
        1
    } else if (c as u32) < 0x800 {
        2
    } else if (c as u32) < 0x10000 {
        3
    } else {
        4
    }
}

/// How many bytes a text takes in UTF-8.
pub open spec fn byte_len(text: Text) -> nat
    decreases text.len(),
{
    if text.len() == 0 {
        0
    } else {
        byte_len(text.drop_last()) + byte_width(text.last())
    }
}

/// Whether a text can be cut after a number of characters that take a
/// number of bytes.
pub open spec fn cuts(text: Text, bytes: nat, at: int) -> bool {
    0 <= at <= text.len() && byte_len(text.take(at)) == bytes
}

/// Where a body lies below the objects directory: sharded by the first two
/// and the next two bytes of its hash, flat where the hash is shorter than
/// that. `None` where a shard would cut a character.
pub open spec fn path_of(hash: Text) -> Option<Seq<Text>> {
    if byte_len(hash) < 4 {
        Some(seq![hash])
    } else if exists|i: int, j: int| #[trigger] cuts(hash, 2, i) && #[trigger] cuts(hash, 4, j) {
        let (i, j) = choose|i: int, j: int| #[trigger] cuts(hash, 2, i) && #[trigger] cuts(
            hash,
            4,
            j,
        );
        Some(seq![hash.take(i), hash.subrange(i, j), hash])
    } else {
        None
    }
}

proof fn lemma_bytes_grow(text: Text, i: int, j: int)
    requires
        0 <= i < j <= text.len(),
    ensures
        byte_len(text.take(i)) < byte_len(text.take(j)),
    decreases j - i,
{
    assert(text.take(j).drop_last() =~= text.take(j - 1));
    if i < j - 1 {
        lemma_bytes_grow(text, i, j - 1);
    }
}

proof fn lemma_one_cut(text: Text, bytes: nat, i: int, j: int)
    requires
        cuts(text, bytes, i),
        cuts(text, bytes, j),
    ensures
        i == j,
{
    if i < j {
        lemma_bytes_grow(text, i, j);
    } else if j < i {
        lemma_bytes_grow(text, j, i);
    }
}

/// How many bytes a character takes in UTF-8.
fn width_of(c: char) -> (bytes: usize)
    ensures
        bytes == byte_width(c),
{
    let code: u32 = c as u32;
    if code < 0x80 {
        1
    } else if code < 0x800 {
        2
    } else if code < 0x10000 {
        3
    } else {
        4
    }
}

/// Where a text can be cut after a number of bytes, `None` where that cuts
/// a character or is past its end.
fn cut_after(chars: &[char], bytes: usize) -> (at: Option<usize>)
    requires
        bytes <= 4,
    ensures
        match at {
            Some(at) => cuts(chars@, bytes as nat, at as int),
            None => forall|i: int| !#[trigger] cuts(chars@, bytes as nat, i),
        },
{
    let mut at: usize = 0;
    let mut taken: usize = 0;
    while at < chars.len() && taken < bytes
        invariant
            at <= chars.len(),
            bytes <= 4,
            taken < bytes + 4,
            taken == byte_len(chars@.take(at as int)),
            at > 0 ==> byte_len(chars@.take(at - 1)) < bytes,
        decreases chars.len() - at,
    {
        assert(chars@.take(at + 1).drop_last() =~= chars@.take(at as int));
        taken = taken + width_of(chars[at]);
        at = at + 1;
        assert(chars@.take(at - 1).len() == at - 1);
    }
    if taken == bytes {
        return Some(at);
    }
    proof {
        assert forall|i: int| !#[trigger] cuts(chars@, bytes as nat, i) by {
            if cuts(chars@, bytes as nat, i) {
                if i < at {
                    if i < at - 1 {
                        lemma_bytes_grow(chars@, i, at - 1);
                    }
                } else if i > at {
                    lemma_bytes_grow(chars@, at as int, i);
                }
            }
        }
    }
    None
}

/// Whether a text takes at least four bytes.
fn is_sharded(chars: &[char]) -> (yes: bool)
    ensures
        yes == (byte_len(chars@) >= 4),
{
    let mut at: usize = 0;
    let mut taken: usize = 0;
    while at < chars.len() && taken < 4
        invariant
            at <= chars.len(),
            taken < 8,
            taken == byte_len(chars@.take(at as int)),
        decreases chars.len() - at,
    {
        assert(chars@.take(at + 1).drop_last() =~= chars@.take(at as int));
        taken = taken + width_of(chars[at]);
        at = at + 1;
    }
    proof {
        assert(chars@.take(chars@.len() as int) =~= chars@);
        if at < chars@.len() {
            lemma_bytes_grow(chars@, at as int, chars@.len() as int);
        }
    }
    taken >= 4
}

/// The directories and the name a body lies under, below the objects
/// directory: the first two bytes of its hash, the next two, the hash. A
/// hash shorter than four bytes lies flat. `None` where a shard would cut a
/// character in two.
pub fn blob_path(hash: &str) -> (path: Option<Vec<String>>)
    ensures
        path.deep_view() == path_of(hash@),
{
    let owned = chars_of(hash);
    let chars = owned.as_slice();
    let mut path: Vec<String> = Vec::new();
    if !is_sharded(chars) {
        push_to(&mut path, hash.to_owned());
        assert(path.deep_view() =~= seq![hash@]);
        return Some(path);
    }
    let first = match cut_after(chars, 2) {
        Some(first) => first,
        None => {
            assert(path_of(hash@) is None);
            return None;
        },
    };
    let second = match cut_after(chars, 4) {
        Some(second) => second,
        None => {
            assert(path_of(hash@) is None);
            return None;
        },
    };
    proof {
        assert(cuts(hash@, 2, first as int) && cuts(hash@, 4, second as int));
        let (i, j) = choose|i: int, j: int| #[trigger] cuts(hash@, 2, i) && #[trigger] cuts(
            hash@,
            4,
            j,
        );
        lemma_one_cut(hash@, 2, i, first as int);
        lemma_one_cut(hash@, 4, j, second as int);
        if first > second {
            lemma_bytes_grow(hash@, second as int, first as int);
        }
    }
    let head = slice_subrange(chars, 0, first);
    let next = slice_subrange(chars, first, second);
    push_to(&mut path, text_of(head));
    push_to(&mut path, text_of(next));
    push_to(&mut path, hash.to_owned());
    assert(hash@.take(first as int) =~= hash@.subrange(0, first as int));
    assert(path.deep_view() =~= seq![
        hash@.take(first as int),
        hash@.subrange(first as int, second as int),
        hash@,
    ]);
    Some(path)
}

/// Whether a name is a temporary one: it starts with a period.
pub open spec fn is_temporary(name: Text) -> bool {
    name.len() > 0 && name[0] == '.'
}

/// The body a file of the tree holds, by its path below the objects
/// directory: one that lies where its name says. A period-prefixed name
/// belongs to a writer that has not committed, and a file elsewhere than
/// its name's shard is not the store's.
pub open spec fn body_at(path: Seq<Text>) -> Option<Text> {
    if path.len() > 0 && (forall|i: int| 0 <= i < path.len() ==> !is_temporary(#[trigger] path[i]))
        && path_of(path.last()) == Some(path) {
        Some(path.last())
    } else {
        None
    }
}

/// Whether a name is a temporary one.
fn has_period(name: &str) -> (yes: bool)
    ensures
        yes == is_temporary(name@),
{
    let chars = chars_of(name);
    chars.len() > 0 && chars[0] == '.'
}

/// Tells which body a file of the tree holds.
pub fn blob_at(path: &Vec<String>) -> (hash: Option<String>)
    ensures
        hash.deep_view() == body_at(path.deep_view()),
{
    let ghost all = path.deep_view();
    if path.len() == 0 {
        return None;
    }
    let mut i: usize = 0;
    while i < path.len()
        invariant
            i <= path.len(),
            all == path.deep_view(),
            forall|j: int| 0 <= j < i ==> !is_temporary(#[trigger] all[j]),
        decreases path.len() - i,
    {
        assert(all[i as int] == path@[i as int]@);
        if has_period(path[i].as_str()) {
            return None;
        }
        i = i + 1;
    }
    let name = &path[path.len() - 1];
    assert(all.last() == name@);
    let own = match blob_path(name.as_str()) {
        Some(own) => own,
        None => {
            return None;
        },
    };
    let ghost wanted = own.deep_view();
    if own.len() != path.len() {
        assert(wanted.len() != all.len());
        return None;
    }
    let mut k: usize = 0;
    while k < path.len()
        invariant
            k <= path.len(),
            path.len() == own.len(),
            all == path.deep_view(),
            wanted == own.deep_view(),
            path_of(all.last()) == Some(wanted),
            forall|j: int| 0 <= j < k ==> #[trigger] all[j] == wanted[j],
        decreases path.len() - k,
    {
        assert(all[k as int] == path@[k as int]@ && wanted[k as int] == own@[k as int]@);
        if !text_same(path[k].as_str(), own[k].as_str()) {
            return None;
        }
        k = k + 1;
    }
    assert(wanted =~= all);
    Some(name.clone())
}

/// A body of the store lies where a walk finds it again, under its hash,
/// where neither the hash nor a shard of it starts with a period.
pub proof fn lemma_a_body_is_found_where_it_lies(hash: Text)
    requires
        path_of(hash) is Some,
        forall|i: int|
            0 <= i < (path_of(hash)->0).len() ==> !is_temporary(#[trigger] (path_of(hash)->0)[i]),
    ensures
        body_at(path_of(hash)->0) == Some(hash),
{
}

/// The bodies a batch carries, in order.
pub open spec fn bodies_in(ops: Seq<WriteOpView>) -> Seq<BodyView>
    decreases ops.len(),
{
    if ops.len() == 0 {
        Seq::empty()
    } else {
        let rest = bodies_in(ops.drop_last());
        match ops.last() {
            WriteOpView::StoreObject { object, body: Some(bytes) } => rest.push(
                BodyView { hash: object.hash, bytes },
            ),
            _ => rest,
        }
    }
}

/// Lists every body a batch carries, written ahead of the transaction that
/// indexes them: a body is immutable, so writing it early leaves at worst an
/// orphan for the collector.
pub fn stage(ops: &Vec<PimdirWriteOp>) -> (bodies: Vec<PimdirBody>)
    ensures
        bodies.deep_view() == bodies_in(ops.deep_view()),
{
    let mut bodies: Vec<PimdirBody> = Vec::new();
    let ghost all = ops.deep_view();
    let mut i: usize = 0;
    assert(bodies.deep_view() =~= Seq::empty());
    while i < ops.len()
        invariant
            i <= ops.len(),
            all == ops.deep_view(),
            bodies.deep_view() == bodies_in(all.take(i as int)),
        decreases ops.len() - i,
    {
        proof {
            assert(all.take(i + 1).drop_last() =~= all.take(i as int));
            assert(all.take(i + 1).last() == ops@[i as int]@);
        }
        match &ops[i] {
            PimdirWriteOp::StoreObject { object, body } => {
                if let Some(bytes) = body {
                    push_to(
                        &mut bodies,
                        PimdirBody { hash: object.hash.clone(), bytes: clone_bytes(bytes) },
                    );
                }
            },
            _ => {},
        }
        i = i + 1;
    }
    assert(all.take(i as int) =~= all);
    bodies
}

/// The files no row indexes, in order.
pub open spec fn orphans_of(files: Seq<BlobFileView>, indexed: Set<Text>) -> Seq<BlobFileView>
    decreases files.len(),
{
    if files.len() == 0 {
        Seq::empty()
    } else {
        let rest = orphans_of(files.drop_last(), indexed);
        if indexed.contains(files.last().hash) {
            rest
        } else {
            rest.push(files.last())
        }
    }
}

/// What some files weigh.
pub open spec fn weight(files: Seq<BlobFileView>) -> int
    decreases files.len(),
{
    if files.len() == 0 {
        0
    } else {
        weight(files.drop_last()) + files.last().size
    }
}

proof fn lemma_orphans_weigh_less(files: Seq<BlobFileView>, indexed: Set<Text>)
    ensures
        0 <= weight(orphans_of(files, indexed)) <= weight(files),
        orphans_of(files, indexed).len() <= files.len(),
    decreases files.len(),
{
    if files.len() > 0 {
        lemma_orphans_weigh_less(files.drop_last(), indexed);
        let rest = orphans_of(files.drop_last(), indexed);
        assert(rest.push(files.last()).drop_last() =~= rest);
    }
}

proof fn lemma_part_weighs_less(files: Seq<BlobFileView>, i: int)
    requires
        0 <= i <= files.len(),
    ensures
        0 <= weight(files.take(i)) <= weight(files),
    decreases files.len(),
{
    if files.len() > 0 {
        lemma_part_weighs_less(files.drop_last(), if i < files.len() { i } else { i - 1 });
        if i < files.len() {
            assert(files.drop_last().take(i) =~= files.take(i));
        } else {
            assert(files.take(i) =~= files);
            assert(files.drop_last().take(i - 1) =~= files.drop_last());
        }
    }
}

/// Tells which files of the tree to remove, no row indexing them, and what
/// that reclaims; `objects` is how many rows nothing referenced.
pub fn collect_garbage(
    files: &Vec<PimdirBlobFile>,
    indexed: &TextSet,
    objects: usize,
) -> (swept: (Vec<PimdirBlobFile>, PimdirGcReport))
    requires
        weight(files.deep_view()) <= u64::MAX,
    ensures
        swept.0.deep_view() == orphans_of(files.deep_view(), indexed@),
        swept.1.objects == objects,
        swept.1.blobs == orphans_of(files.deep_view(), indexed@).len(),
        swept.1.bytes == weight(orphans_of(files.deep_view(), indexed@)),
{
    let mut gone: Vec<PimdirBlobFile> = Vec::new();
    let mut bytes: u64 = 0;
    let ghost all = files.deep_view();
    let mut i: usize = 0;
    assert(gone.deep_view() =~= Seq::empty());
    while i < files.len()
        invariant
            i <= files.len(),
            all == files.deep_view(),
            weight(all) <= u64::MAX,
            gone.deep_view() == orphans_of(all.take(i as int), indexed@),
            bytes == weight(gone.deep_view()),
        decreases files.len() - i,
    {
        let ghost before = gone.deep_view();
        proof {
            assert(all.take(i + 1).drop_last() =~= all.take(i as int));
            assert(all.take(i + 1).last() == files@[i as int]@);
            lemma_orphans_weigh_less(all.take(i as int), indexed@);
            lemma_part_weighs_less(all, i + 1);
        }
        if !indexed.contains(files[i].hash.as_str()) {
            bytes = bytes + files[i].size;
            push_to(&mut gone, files[i].clone());
            assert(gone.deep_view().drop_last() =~= before);
        }
        i = i + 1;
    }
    assert(all.take(i as int) =~= all);
    assert(gone.len() == gone.deep_view().len());
    let report = PimdirGcReport { objects, blobs: gone.len(), bytes };
    (gone, report)
}

/// A collection of garbage never removes a body a row indexes.
pub proof fn lemma_no_indexed_body_is_removed(
    files: Seq<BlobFileView>,
    indexed: Set<Text>,
    i: int,
)
    requires
        0 <= i < orphans_of(files, indexed).len(),
    ensures
        !indexed.contains(orphans_of(files, indexed)[i].hash),
    decreases files.len(),
{
    let rest = orphans_of(files.drop_last(), indexed);
    if i < rest.len() {
        lemma_no_indexed_body_is_removed(files.drop_last(), indexed, i);
    }
}

/// The bodies among the files of the tree, in the order walked.
pub open spec fn bodies_among(files: Seq<TreeFileView>) -> Seq<BlobFileView>
    decreases files.len(),
{
    if files.len() == 0 {
        Seq::empty()
    } else {
        let rest = bodies_among(files.drop_last());
        match body_at(files.last().path) {
            Some(hash) => rest.push(BlobFileView { hash, size: files.last().size }),
            None => rest,
        }
    }
}

/// A handle over a store's blob directory, bound to the hash its bodies are
/// named by.
#[derive(Clone, Copy, Debug)]
pub struct PimdirBlobs {
    hash: PimdirHashAlgo,
}

impl PimdirBlobs {
    /// The hash bodies here are named by.
    pub closed spec fn algo(&self) -> PimdirHashAlgo {
        self.hash
    }

    /// The blob handle of a store naming bodies with `hash`.
    pub fn open(hash: PimdirHashAlgo) -> (blobs: Self)
        ensures
            blobs.algo() == hash,
    {
        PimdirBlobs { hash }
    }

    /// The hash bodies here are named by.
    pub fn hash_algo(&self) -> (algo: PimdirHashAlgo)
        ensures
            algo == self.algo(),
    {
        self.hash
    }

    /// The content hash of a whole body, under this store's algorithm.
    pub fn hash(&self, bytes: &[u8]) -> (hash: PimdirHash)
        ensures
            hash@ == self.algo().name_of(bytes@),
    {
        self.hash.hash(bytes)
    }

    /// An incremental hasher, for a body streamed into the tree.
    pub fn hasher(&self) -> (hasher: PimdirHasher)
        ensures
            hasher@.algo == self.algo(),
            hasher@.fed == Seq::<u8>::empty(),
    {
        self.hash.hasher()
    }

    /// Where a body under `hash` lies below the objects directory.
    pub fn path(&self, hash: &PimdirHash) -> (path: Option<Vec<String>>)
        ensures
            path.deep_view() == path_of(hash@),
    {
        blob_path(hash.as_str())
    }

    /// Every body the blob tree holds: the files lying at the path their
    /// name says.
    pub fn files(&self, files: &Vec<PimdirTreeFile>) -> (bodies: Vec<PimdirBlobFile>)
        ensures
            bodies.deep_view() == bodies_among(files.deep_view()),
    {
        let mut bodies: Vec<PimdirBlobFile> = Vec::new();
        let ghost all = files.deep_view();
        let mut i: usize = 0;
        assert(bodies.deep_view() =~= Seq::empty());
        while i < files.len()
            invariant
                i <= files.len(),
                all == files.deep_view(),
                bodies.deep_view() == bodies_among(all.take(i as int)),
            decreases files.len() - i,
        {
            proof {
                assert(all.take(i + 1).drop_last() =~= all.take(i as int));
                assert(all.take(i + 1).last() == files@[i as int]@);
            }
            if let Some(hash) = blob_at(&files[i].path) {
                push_to(&mut bodies, PimdirBlobFile { hash, size: files[i].size });
            }
            i = i + 1;
        }
        assert(all.take(i as int) =~= all);
        bodies
    }
}

/// Every file no row indexes is garbage, so what a collection removes is
/// all of it.
pub proof fn lemma_every_orphan_is_removed(files: Seq<BlobFileView>, indexed: Set<Text>, i: int)
    requires
        0 <= i < files.len(),
        !indexed.contains(files[i].hash),
    ensures
        orphans_of(files, indexed).contains(files[i]),
    decreases files.len(),
{
    let rest = orphans_of(files.drop_last(), indexed);
    let all = orphans_of(files, indexed);
    if i < files.len() - 1 {
        lemma_every_orphan_is_removed(files.drop_last(), indexed, i);
        let k = choose|k: int| 0 <= k < rest.len() && rest[k] == files[i];
        assert(all[k] == files[i]);
    } else {
        assert(all[all.len() - 1] == files[i]);
    }
}

/// The weight of files is the sum of their sizes, whatever they are parted
/// into.
pub proof fn lemma_weights_add_up(a: Seq<BlobFileView>, b: Seq<BlobFileView>, file: BlobFileView)
    ensures
        weight(a + b) == weight(a) + weight(b),
        weight(seq![file]) == file.size,
        weight(Seq::empty()) == 0,
    decreases b.len(),
{
    assert(seq![file].drop_last() =~= Seq::empty());
    assert(weight(seq![file].drop_last()) == 0);
    if b.len() == 0 {
        assert(a + b =~= a);
    } else {
        lemma_weights_add_up(a, b.drop_last(), file);
        assert((a + b).drop_last() =~= a + b.drop_last());
    }
}

/// Each body a batch brings bytes for is written, under its hash.
pub proof fn lemma_every_body_of_a_batch_is_written(ops: Seq<WriteOpView>, i: int)
    requires
        0 <= i < ops.len(),
    ensures
        ops[i] matches WriteOpView::StoreObject { object, body: Some(bytes) } ==> bodies_in(
            ops,
        ).contains(BodyView { hash: object.hash, bytes }),
    decreases ops.len(),
{
    let rest = bodies_in(ops.drop_last());
    let all = bodies_in(ops);
    match ops[i] {
        WriteOpView::StoreObject { object, body: Some(bytes) } => {
            let body = BodyView { hash: object.hash, bytes };
            if i < ops.len() - 1 {
                lemma_every_body_of_a_batch_is_written(ops.drop_last(), i);
                let k = choose|k: int| 0 <= k < rest.len() && rest[k] == body;
                assert(all[k] == body);
            } else {
                assert(all[all.len() - 1] == body);
            }
        },
        _ => {},
    }
}

/// A file of the tree that lies where its body belongs is a body of the
/// store, with its size.
pub proof fn lemma_every_body_of_the_tree_is_found(files: Seq<TreeFileView>, i: int, hash: Text)
    requires
        0 <= i < files.len(),
        body_at(files[i].path) == Some(hash),
    ensures
        bodies_among(files).contains(BlobFileView { hash, size: files[i].size }),
    decreases files.len(),
{
    let rest = bodies_among(files.drop_last());
    let all = bodies_among(files);
    let body = BlobFileView { hash, size: files[i].size };
    if i < files.len() - 1 {
        lemma_every_body_of_the_tree_is_found(files.drop_last(), i, hash);
        let k = choose|k: int| 0 <= k < rest.len() && rest[k] == body;
        assert(all[k] == body);
    } else {
        assert(all[all.len() - 1] == body);
    }
}

/// A hash of ASCII characters, four or more, lies two directories deep,
/// the first named by its first two characters and the second by the next
/// two; a shorter one lies at the top.
pub proof fn lemma_a_body_lies_two_shards_deep(hash: Text)
    requires
        forall|i: int| 0 <= i < hash.len() ==> (#[trigger] hash[i] as u32) < 0x80,
    ensures
        hash.len() < 4 ==> path_of(hash) == Some(seq![hash]),
        hash.len() >= 4 ==> path_of(hash) == Some(
            seq![hash.take(2), hash.subrange(2, 4), hash],
        ),
{
    lemma_ascii_bytes(hash);
    if hash.len() >= 4 {
        assert forall|bytes: nat, at: int| #[trigger] cuts(hash, bytes, at) implies at == bytes by {
            lemma_ascii_bytes(hash.take(at));
        }
        lemma_ascii_bytes(hash.take(2));
        lemma_ascii_bytes(hash.take(4));
        assert(cuts(hash, 2, 2) && cuts(hash, 4, 4));
    }
}

proof fn lemma_ascii_bytes(text: Text)
    requires
        forall|i: int| 0 <= i < text.len() ==> (#[trigger] text[i] as u32) < 0x80,
    ensures
        byte_len(text) == text.len(),
    decreases text.len(),
{
    if text.len() > 0 {
        let rest = text.drop_last();
        assert forall|i: int| 0 <= i < rest.len() implies (#[trigger] rest[i] as u32) < 0x80 by {
            assert(rest[i] == text[i]);
        }
        lemma_ascii_bytes(rest);
        assert(text.last() == text[text.len() - 1]);
    }
}

} // verus!

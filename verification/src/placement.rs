//! # Placement
//!
//! An item's presence in one collection: handle, link id, level, flags
//! and sync base.
//!
//! One of the two identity axes, next to the object. It pins an item to a
//! collection through the protocol handle, carries the per-location
//! mutable state at some level, and holds the base the three-way merge
//! reconciles against.

use crate::collection::PimdirCollectionId;
use crate::object::PimdirHash;
use crate::summary::{PimdirSummary, SummaryView};
use crate::text::Text;
use crate::text_map::TextSet;
use vstd::string::*;
use vstd::prelude::*;

verus! {

/// The protocol's per-collection location of an item.
///
/// IMAP uidvalidity plus uid, WebDAV href, JMAP id, always a string.
#[derive(Debug, Eq, Ord, PartialOrd, Hash)]
pub struct PimdirHandle(pub String);

impl View for PimdirHandle {
    type V = Text;

    open spec fn view(&self) -> Text {
        self.0@
    }
}

impl DeepView for PimdirHandle {
    type V = Text;

    open spec fn deep_view(&self) -> Text {
        self@
    }
}

impl Clone for PimdirHandle {
    fn clone(&self) -> (copy: Self)
        ensures
            copy == *self,
    {
        PimdirHandle(self.0.clone())
    }
}

impl PartialEq for PimdirHandle {
    fn eq(&self, other: &Self) -> (same: bool) {
        self.0 == other.0
    }
}

impl vstd::std_specs::cmp::PartialEqSpecImpl for PimdirHandle {
    open spec fn obeys_eq_spec() -> bool {
        true
    }

    open spec fn eq_spec(&self, other: &Self) -> bool {
        self@ == other@
    }
}

impl From<String> for PimdirHandle {
    fn from(id: String) -> (made: Self)
        ensures
            made@ == id@,
    {
        PimdirHandle(id)
    }
}

impl vstd::std_specs::convert::FromSpecImpl<String> for PimdirHandle {
    open spec fn obeys_from_spec() -> bool {
        true
    }

    open spec fn from_spec(id: String) -> Self {
        PimdirHandle(id)
    }
}

impl From<&str> for PimdirHandle {
    fn from(id: &str) -> (made: Self)
        ensures
            made@ == id@,
    {
        PimdirHandle(id.to_owned())
    }
}

impl vstd::std_specs::convert::FromSpecImpl<&str> for PimdirHandle {
    open spec fn obeys_from_spec() -> bool {
        false
    }

    open spec fn from_spec(id: &str) -> Self {
        arbitrary()
    }
}

impl PimdirHandle {
    /// Borrows the id as a string slice.
    pub fn as_str(&self) -> (text: &str)
        ensures
            text@ == self@,
    {
        self.0.as_str()
    }
}

/// The item identity grouping copies across collections and protocols.
///
/// A source global id (a JMAP id), else a stable content id (the
/// Message-ID header, the vCard or iCalendar UID). Never a per-copy value
/// a provider may rewrite.
#[derive(Debug, Eq, Ord, PartialOrd, Hash)]
pub struct PimdirLinkId(pub String);

impl View for PimdirLinkId {
    type V = Text;

    open spec fn view(&self) -> Text {
        self.0@
    }
}

impl DeepView for PimdirLinkId {
    type V = Text;

    open spec fn deep_view(&self) -> Text {
        self@
    }
}

impl Clone for PimdirLinkId {
    fn clone(&self) -> (copy: Self)
        ensures
            copy == *self,
    {
        PimdirLinkId(self.0.clone())
    }
}

impl PartialEq for PimdirLinkId {
    fn eq(&self, other: &Self) -> (same: bool) {
        self.0 == other.0
    }
}

impl vstd::std_specs::cmp::PartialEqSpecImpl for PimdirLinkId {
    open spec fn obeys_eq_spec() -> bool {
        true
    }

    open spec fn eq_spec(&self, other: &Self) -> bool {
        self@ == other@
    }
}

impl From<String> for PimdirLinkId {
    fn from(id: String) -> (made: Self)
        ensures
            made@ == id@,
    {
        PimdirLinkId(id)
    }
}

impl vstd::std_specs::convert::FromSpecImpl<String> for PimdirLinkId {
    open spec fn obeys_from_spec() -> bool {
        true
    }

    open spec fn from_spec(id: String) -> Self {
        PimdirLinkId(id)
    }
}

impl From<&str> for PimdirLinkId {
    fn from(id: &str) -> (made: Self)
        ensures
            made@ == id@,
    {
        PimdirLinkId(id.to_owned())
    }
}

impl vstd::std_specs::convert::FromSpecImpl<&str> for PimdirLinkId {
    open spec fn obeys_from_spec() -> bool {
        false
    }

    open spec fn from_spec(id: &str) -> Self {
        arbitrary()
    }
}

impl PimdirLinkId {
    /// Borrows the id as a string slice.
    pub fn as_str(&self) -> (text: &str)
        ensures
            text@ == self@,
    {
        self.0.as_str()
    }
}

/// The key a second copy of `id` takes under `handle`.
pub open spec fn minted_key(id: Text, handle: Text) -> Text {
    "dup:"@ + id + "#"@ + handle
}

/// The key after minting `rounds` times over.
pub open spec fn minted_times(id: Text, handle: Text, rounds: nat) -> Text
    decreases rounds,
{
    if rounds == 0 {
        id
    } else {
        minted_key(minted_times(id, handle, (rounds - 1) as nat), handle)
    }
}

impl PimdirLinkId {
    /// The key a second copy of this identity takes in one collection.
    ///
    /// `dup:`, the hint, `#`, the handle verbatim. Derived from the hint
    /// and handle alone, so a rebuilt replica mints the same keys again.
    pub fn minted(&self, handle: &PimdirHandle) -> (key: Self)
        ensures
            key@ == minted_key(self@, handle@),
    {
        let mut key = "dup:".to_owned();
        key.append(self.as_str());
        key.append("#");
        key.append(handle.as_str());
        PimdirLinkId(key)
    }

    /// This identity while free, else a minted one that is.
    ///
    /// Minting repeats while the key is taken, since an identity may
    /// itself be spelled like a minted one. It terminates where `taken`
    /// names no key longer than some bound: each round lengthens the key.
    pub fn claim<F: Fn(&PimdirLinkId) -> bool>(&self, handle: &PimdirHandle, taken: F) -> (key: Self)
        requires
            forall|key: PimdirLinkId| #[trigger] call_requires(taken, (&key,)),
            exists|bound: nat| names_none_past(taken, bound),
        ensures
            exists|rounds: nat| #[trigger] claimed_after(taken, self@, handle@, rounds, key),
    {
        let ghost bound = choose|bound: nat| names_none_past(taken, bound);
        let mut key = self.clone();
        let ghost mut rounds: nat = 0;
        loop
            invariant
                forall|key: PimdirLinkId| #[trigger] call_requires(taken, (&key,)),
                names_none_past(taken, bound),
                key@ == minted_times(self@, handle@, rounds),
                forall|earlier: nat|
                    earlier < rounds ==> #[trigger] reported_taken(
                        taken,
                        minted_times(self@, handle@, earlier),
                    ),
            ensures
                claimed_after(taken, self@, handle@, rounds, key),
            decreases (if key@.len() <= bound { bound + 1 - key@.len() } else { 0 }),
        {
            let held = taken(&key);
            if !held {
                break;
            }
            proof {
                reveal_strlit("dup:");
                reveal_strlit("#");
                assert(key@.len() <= bound);
                assert(reported_taken(taken, minted_times(self@, handle@, rounds)));
            }
            key = key.minted(handle);
            proof {
                rounds = rounds + 1;
            }
        }
        key
    }

    /// This identity while not among the taken keys, else a minted one that
    /// is not.
    pub fn claim_among(&self, handle: &PimdirHandle, taken: &TextSet) -> (key: Self)
        ensures
            key@ == claimed_key(self@, handle@, taken@),
            !taken@.contains(key@),
    {
        let reports = |key: &PimdirLinkId| -> (held: bool)
            ensures
                held == taken@.contains(key@),
            { taken.contains(key.as_str()) };
        // Counting a set tells that its listing holds its members.
        let n: usize = taken.len();
        proof {
            let bound = lemma_lengths_bounded(taken.list());
            assert(names_none_past(reports, bound)) by {
                assert forall|key: PimdirLinkId| #[trigger]
                    call_ensures(reports, (&key,), true) implies key@.len() <= bound by {
                    assert(taken.list().to_set().contains(key@));
                    let i = taken.list().index_of(key@);
                    assert(taken.list()[i] == key@);
                }
            }
        }
        let key = self.claim(handle, reports);
        proof {
            lemma_claim_among(reports, self@, handle@, taken@, key);
        }
        key
    }
}

/// Whether no key longer than `bound` is ever reported taken.
pub open spec fn names_none_past<F: Fn(&PimdirLinkId) -> bool>(taken: F, bound: nat) -> bool {
    forall|key: PimdirLinkId| #[trigger]
        call_ensures(taken, (&key,), true) ==> key@.len() <= bound
}

/// Whether some key of this spelling was reported taken.
pub open spec fn reported_taken<F: Fn(&PimdirLinkId) -> bool>(taken: F, key: Text) -> bool {
    exists|id: PimdirLinkId| id@ == key && #[trigger] call_ensures(taken, (&id,), true)
}

/// Whether `key` is the first of the minted keys reported free.
pub open spec fn claimed_after<F: Fn(&PimdirLinkId) -> bool>(
    taken: F,
    id: Text,
    handle: Text,
    rounds: nat,
    key: PimdirLinkId,
) -> bool {
    &&& key@ == minted_times(id, handle, rounds)
    &&& call_ensures(taken, (&key,), false)
    &&& forall|earlier: nat|
        earlier < rounds ==> #[trigger] reported_taken(taken, minted_times(id, handle, earlier))
}

/// Whether `rounds` of minting lead to the first key not taken.
pub open spec fn is_claim(id: Text, handle: Text, taken: Set<Text>, rounds: nat) -> bool {
    &&& !taken.contains(minted_times(id, handle, rounds))
    &&& forall|earlier: nat|
        earlier < rounds ==> taken.contains(#[trigger] minted_times(id, handle, earlier))
}

/// The first of an identity and the keys minted from it that is not taken.
pub open spec fn claimed_key(id: Text, handle: Text, taken: Set<Text>) -> Text {
    minted_times(id, handle, choose|rounds: nat| is_claim(id, handle, taken, rounds))
}

/// A claim against a set of taken keys is the first key not in it.
pub proof fn lemma_claim_among<F: Fn(&PimdirLinkId) -> bool>(
    reports: F,
    id: Text,
    handle: Text,
    taken: Set<Text>,
    key: PimdirLinkId,
)
    requires
        forall|asked: PimdirLinkId, held: bool| #[trigger]
            call_ensures(reports, (&asked,), held) ==> held == taken.contains(asked@),
        exists|rounds: nat| #[trigger] claimed_after(reports, id, handle, rounds, key),
    ensures
        key@ == claimed_key(id, handle, taken),
        !taken.contains(key@),
{
    let rounds = choose|rounds: nat| #[trigger] claimed_after(reports, id, handle, rounds, key);
    assert(is_claim(id, handle, taken, rounds)) by {
        assert forall|earlier: nat| earlier < rounds implies taken.contains(
            #[trigger] minted_times(id, handle, earlier),
        ) by {
            assert(reported_taken(reports, minted_times(id, handle, earlier)));
        }
    }
    let chosen = choose|rounds: nat| is_claim(id, handle, taken, rounds);
    assert(is_claim(id, handle, taken, chosen));
    if chosen < rounds {
        assert(taken.contains(minted_times(id, handle, chosen)));
    } else if rounds < chosen {
        assert(taken.contains(minted_times(id, handle, rounds)));
    }
}

/// Against keys of bounded length some round of minting leads to a free
/// key, so a claim always succeeds.
pub proof fn lemma_claim_exists(id: Text, handle: Text, taken: Set<Text>, bound: nat)
    requires
        forall|key: Text| #[trigger] taken.contains(key) ==> key.len() <= bound,
    ensures
        exists|rounds: nat| is_claim(id, handle, taken, rounds),
        !taken.contains(claimed_key(id, handle, taken)),
        !taken.contains(id) ==> claimed_key(id, handle, taken) == id,
{
    lemma_minted_length(id, handle, (bound + 1) as nat);
    let rounds = lemma_first_free(id, handle, taken, (bound + 1) as nat);
    let chosen = choose|rounds: nat| is_claim(id, handle, taken, rounds);
    assert(is_claim(id, handle, taken, chosen));
    if !taken.contains(id) && chosen > 0 {
        assert(taken.contains(minted_times(id, handle, 0)));
    }
}

proof fn lemma_minted_length(id: Text, handle: Text, rounds: nat)
    ensures
        minted_times(id, handle, rounds).len() >= rounds,
    decreases rounds,
{
    if rounds > 0 {
        lemma_minted_length(id, handle, (rounds - 1) as nat);
        lemma_minted_is_longer(minted_times(id, handle, (rounds - 1) as nat), handle);
    }
}

proof fn lemma_first_free(id: Text, handle: Text, taken: Set<Text>, last: nat) -> (rounds: nat)
    requires
        !taken.contains(minted_times(id, handle, last)),
    ensures
        is_claim(id, handle, taken, rounds),
    decreases last,
{
    if exists|earlier: nat|
        earlier < last && !taken.contains(#[trigger] minted_times(id, handle, earlier)) {
        let earlier = choose|earlier: nat|
            earlier < last && !taken.contains(#[trigger] minted_times(id, handle, earlier));
        lemma_first_free(id, handle, taken, earlier)
    } else {
        last
    }
}

/// A length no listed key exceeds.
pub proof fn lemma_lengths_bounded(keys: Seq<Text>) -> (bound: nat)
    ensures
        forall|i: int| 0 <= i < keys.len() ==> (#[trigger] keys[i]).len() <= bound,
    decreases keys.len(),
{
    if keys.len() == 0 {
        0
    } else {
        let rest = lemma_lengths_bounded(keys.drop_last());
        let last = keys.last().len();
        let bound = if rest >= last {
            rest
        } else {
            last
        };
        assert forall|i: int| 0 <= i < keys.len() implies (#[trigger] keys[i]).len() <= bound by {
            if i < keys.len() - 1 {
                assert(keys.drop_last()[i] == keys[i]);
            }
        }
        bound
    }
}

/// A minted key is longer than the identity it was minted from, so it is
/// never that identity.
pub proof fn lemma_minted_is_longer(id: Text, handle: Text)
    ensures
        minted_key(id, handle).len() > id.len(),
        minted_key(id, handle) != id,
{
    reveal_strlit("dup:");
    reveal_strlit("#");
}

/// An item's position in its collection's natural order.
///
/// Opaque to the engine and derived beside the summary. Empty means
/// unknown and is the default.
#[derive(Debug, Eq)]
pub struct PimdirSortKey(pub String);

impl View for PimdirSortKey {
    type V = Text;

    open spec fn view(&self) -> Text {
        self.0@
    }
}

impl DeepView for PimdirSortKey {
    type V = Text;

    open spec fn deep_view(&self) -> Text {
        self@
    }
}

impl Clone for PimdirSortKey {
    fn clone(&self) -> (copy: Self)
        ensures
            copy == *self,
    {
        PimdirSortKey(self.0.clone())
    }
}

impl PartialEq for PimdirSortKey {
    fn eq(&self, other: &Self) -> (same: bool) {
        self.0 == other.0
    }
}

impl vstd::std_specs::cmp::PartialEqSpecImpl for PimdirSortKey {
    open spec fn obeys_eq_spec() -> bool {
        true
    }

    open spec fn eq_spec(&self, other: &Self) -> bool {
        self@ == other@
    }
}

impl From<String> for PimdirSortKey {
    fn from(id: String) -> (made: Self)
        ensures
            made@ == id@,
    {
        PimdirSortKey(id)
    }
}

impl vstd::std_specs::convert::FromSpecImpl<String> for PimdirSortKey {
    open spec fn obeys_from_spec() -> bool {
        true
    }

    open spec fn from_spec(id: String) -> Self {
        PimdirSortKey(id)
    }
}

impl From<&str> for PimdirSortKey {
    fn from(id: &str) -> (made: Self)
        ensures
            made@ == id@,
    {
        PimdirSortKey(id.to_owned())
    }
}

impl vstd::std_specs::convert::FromSpecImpl<&str> for PimdirSortKey {
    open spec fn obeys_from_spec() -> bool {
        false
    }

    open spec fn from_spec(id: &str) -> Self {
        arbitrary()
    }
}

impl PimdirSortKey {
    /// Borrows the id as a string slice.
    pub fn as_str(&self) -> (text: &str)
        ensures
            text@ == self@,
    {
        self.0.as_str()
    }
}

impl Default for PimdirSortKey {
    fn default() -> (made: Self)
        ensures
            made@ == Text::empty(),
    {
        PimdirSortKey(String::new())
    }
}

impl PimdirSortKey {
    /// Whether the key was never derived, as opposed to sorting first.
    pub fn is_unknown(&self) -> (unknown: bool)
        ensures
            unknown == (self@.len() == 0),
    {
        self.0.as_str().is_empty()
    }
}

/// An item's set of state markers, normalized by the consumer.
///
/// A plain string set. `Unknown` is distinct from a known-empty set, or
/// the absence would be pushed onto the side that did read the markers.
#[derive(Debug, PartialEq, Eq)]
pub enum PimdirFlags {
    /// Never read.
    Unknown,
    /// The markers as read, empty when the item carries none.
    Known(TextSet),
}

/// The markers as read, `None` while they are unknown.
impl View for PimdirFlags {
    type V = Option<Set<Text>>;

    open spec fn view(&self) -> Option<Set<Text>> {
        match *self {
            PimdirFlags::Unknown => None,
            PimdirFlags::Known(flags) => Some(flags@),
        }
    }
}

impl DeepView for PimdirFlags {
    type V = Option<Set<Text>>;

    open spec fn deep_view(&self) -> Option<Set<Text>> {
        self@
    }
}

impl Clone for PimdirFlags {
    fn clone(&self) -> (copy: Self)
        ensures
            copy@ == self@,
    {
        match self {
            PimdirFlags::Unknown => PimdirFlags::Unknown,
            PimdirFlags::Known(flags) => PimdirFlags::Known(flags.clone()),
        }
    }
}

/// A known-empty set: unknown is stated outright, never defaulted to.
impl Default for PimdirFlags {
    fn default() -> (made: Self)
        ensures
            made@ == Some(Set::<Text>::empty()),
    {
        PimdirFlags::Known(TextSet::new())
    }
}

/// The three-way merge of two known sets against a base: what both hold,
/// and what each added.
pub open spec fn merged_set(base: Set<Text>, local: Set<Text>, remote: Set<Text>) -> Set<Text> {
    local.intersect(remote).union(local.difference(base)).union(remote.difference(base))
}

/// The markers read, none while they are unknown.
pub open spec fn known_or_empty(flags: Option<Set<Text>>) -> Set<Text> {
    match flags {
        Some(flags) => flags,
        None => Set::empty(),
    }
}

/// The three-way merge of two flag sets. An unknown side holds no
/// opinion, and an unknown base is no base.
pub open spec fn merged(
    base: Option<Set<Text>>,
    local: Option<Set<Text>>,
    remote: Option<Set<Text>>,
) -> Option<Set<Text>> {
    match (local, remote) {
        (None, _) => remote,
        (_, None) => local,
        (Some(local), Some(remote)) => Some(
            merged_set(known_or_empty(base), local, remote),
        ),
    }
}

impl PimdirFlags {
    /// The known set of the given markers.
    pub fn from_iter(flags: &[&str]) -> (made: Self)
        ensures
            made@ == Some(Seq::new(flags@.len(), |i: int| flags@[i]@).to_set()),
    {
        let mut set = TextSet::new();
        let ghost all = Seq::new(flags@.len(), |i: int| flags@[i]@);
        let mut i: usize = 0;
        while i < flags.len()
            invariant
                i <= flags.len(),
                all == Seq::new(flags@.len(), |i: int| flags@[i]@),
                set@ =~= all.take(i as int).to_set(),
            decreases flags.len() - i,
        {
            proof {
                let done = all.take(i as int);
                let next = all.take(i + 1);
                assert(next =~= done.push(all[i as int]));
                assert forall|t: Text| next.to_set().contains(t) == done.to_set().insert(
                    all[i as int],
                ).contains(t) by {
                    if done.contains(t) {
                        let k = done.index_of(t);
                        assert(next[k] == t);
                    }
                    assert(next[i as int] == all[i as int]);
                }
                assert(next.to_set() =~= done.to_set().insert(all[i as int]));
            }
            set.insert(flags[i].to_owned());
            i = i + 1;
        }
        assert(all.take(i as int) =~= all);
        PimdirFlags::Known(set)
    }

    /// Reports whether `flag` is present, which an unknown set never is.
    pub fn contains(&self, flag: &str) -> (held: bool)
        ensures
            held == match self@ {
                Some(flags) => flags.contains(flag@),
                None => false,
            },
    {
        match self {
            PimdirFlags::Unknown => false,
            PimdirFlags::Known(flags) => flags.contains(flag),
        }
    }

    /// Whether the set has never been read, as opposed to being empty.
    pub fn is_unknown(&self) -> (unknown: bool)
        ensures
            unknown == (self@ is None),
    {
        match self {
            PimdirFlags::Unknown => true,
            PimdirFlags::Known(_) => false,
        }
    }

    /// The markers as read, or `None` while they are unknown.
    pub fn known(&self) -> (flags: Option<&TextSet>)
        ensures
            flags.deep_view() == self@,
    {
        match self {
            PimdirFlags::Unknown => None,
            PimdirFlags::Known(flags) => Some(flags),
        }
    }

    /// Whether two flag sets say the same.
    pub fn same(&self, other: &PimdirFlags) -> (same: bool)
        ensures
            same == (self@ == other@),
    {
        match (self, other) {
            (PimdirFlags::Unknown, PimdirFlags::Unknown) => true,
            (PimdirFlags::Known(a), PimdirFlags::Known(b)) => a.same(b),
            _ => false,
        }
    }

    /// Three-way merges two flag sets element-wise against their base.
    ///
    /// The side that flipped a flag wins it, so nothing ever conflicts. An
    /// unknown side holds no opinion, and an unknown base is no base.
    pub fn merge(base: &PimdirFlags, local: &PimdirFlags, remote: &PimdirFlags) -> (flags: PimdirFlags)
        ensures
            flags@ == merged(base@, local@, remote@),
    {
        match (local, remote) {
            (PimdirFlags::Unknown, _) => remote.clone(),
            (_, PimdirFlags::Unknown) => local.clone(),
            (PimdirFlags::Known(mine), PimdirFlags::Known(theirs)) => {
                let mut out = TextSet::new();
                take_merged(&mut out, mine, theirs, base);
                take_merged(&mut out, theirs, mine, base);
                assert(out@ =~= merged_set(known_or_empty(base@), mine@, theirs@));
                PimdirFlags::Known(out)
            },
        }
    }
}

/// Adds the markers of one side that the other holds or the base lacks.
fn take_merged(out: &mut TextSet, side: &TextSet, other: &TextSet, base: &PimdirFlags)
    ensures
        forall|t: Text|
            #[trigger] final(out)@.contains(t) <==> old(out)@.contains(t) || (side@.contains(t) && (
            other@.contains(t) || !known_or_empty(base@).contains(t))),
{
    let ghost start = out@;
    let n: usize = side.len();
    let ghost list = side.list();
    let mut i: usize = 0;
    while i < n
        invariant
            i <= n,
            n == list.len(),
            list == side.list(),
            forall|t: Text|
                #[trigger] out@.contains(t) <==> start.contains(t) || (list.take(i as int).contains(t) && (
                other@.contains(t) || !known_or_empty(base@).contains(t))),
        decreases n - i,
    {
        let flag = side.at(i);
        let ghost before = out@;
        if other.contains(flag.as_str()) || !base.contains(flag.as_str()) {
            out.insert(flag.clone());
        }
        proof {
            lemma_take_contains(list, i as int);
            assert forall|t: Text| #[trigger] out@.contains(t) <==> start.contains(t) || (list.take(
                i + 1,
            ).contains(t) && (other@.contains(t) || !known_or_empty(base@).contains(t))) by {
                assert(list.take(i + 1).contains(t) == (list.take(i as int).contains(t) || t
                    == list[i as int]));
                assert(before.contains(t) <==> start.contains(t) || (list.take(i as int).contains(t)
                    && (other@.contains(t) || !known_or_empty(base@).contains(t))));
            }
        }
        i = i + 1;
    }
    proof {
        assert(list.take(n as int) =~= list);
        assert forall|t: Text| side@.contains(t) == list.contains(t) by {
            assert(list.to_set().contains(t) == list.contains(t));
        }
    }
}

/// One more element of a prefix.
pub proof fn lemma_take_contains(list: Seq<Text>, i: int)
    requires
        0 <= i < list.len(),
    ensures
        forall|t: Text| #[trigger]
            list.take(i + 1).contains(t) == (list.take(i).contains(t) || t == list[i]),
{
    assert forall|t: Text| #[trigger]
        list.take(i + 1).contains(t) == (list.take(i).contains(t) || t == list[i]) by {
        if list.take(i).contains(t) {
            let k = list.take(i).index_of(t);
            assert(list.take(i + 1)[k] == t);
        }
        assert(list.take(i + 1)[i] == list[i]);
        if list.take(i + 1).contains(t) {
            let k = list.take(i + 1).index_of(t);
            if k < i {
                assert(list.take(i)[k] == t);
            }
        }
    }
}

/// Merging does not tell the two sides apart.
pub proof fn lemma_merge_is_symmetric(
    base: Option<Set<Text>>,
    local: Option<Set<Text>>,
    remote: Option<Set<Text>>,
)
    ensures
        merged(base, local, remote) == merged(base, remote, local),
{
    if local is Some && remote is Some {
        let floor = known_or_empty(base);
        assert(merged_set(floor, local->0, remote->0) =~= merged_set(floor, remote->0, local->0));
    }
}

/// Two sides that agree merge to what they agree on, whatever the base.
pub proof fn lemma_merge_keeps_agreement(base: Option<Set<Text>>, both: Option<Set<Text>>)
    ensures
        merged(base, both, both) == both,
{
    if both is Some {
        let floor = known_or_empty(base);
        assert(merged_set(floor, both->0, both->0) =~= both->0);
    }
}

/// The side that flipped a flag wins it, and a flag neither flipped stays
/// as the base had it.
pub proof fn lemma_merge_side_that_flipped_wins(
    base: Set<Text>,
    local: Set<Text>,
    remote: Set<Text>,
    flag: Text,
)
    ensures
        merged(Some(base), Some(local), Some(remote)) is Some,
        ({
            let out = merged(Some(base), Some(local), Some(remote))->0;
            &&& (local.contains(flag) != base.contains(flag) ==> out.contains(flag) == local.contains(
                flag,
            ))
            &&& (remote.contains(flag) != base.contains(flag) ==> out.contains(flag)
                == remote.contains(flag))
            &&& (local.contains(flag) == base.contains(flag) && remote.contains(flag)
                == base.contains(flag) ==> out.contains(flag) == base.contains(flag))
        }),
{
}

/// An unknown side takes the other, and an unknown base keeps the markers
/// of both.
pub proof fn lemma_merge_unknown_holds_no_opinion(
    base: Option<Set<Text>>,
    side: Option<Set<Text>>,
    local: Set<Text>,
    remote: Set<Text>,
)
    ensures
        merged(base, None, side) == side,
        merged(base, side, None) == side,
        merged(None, Some(local), Some(remote)) == Some(local.union(remote)),
{
    assert(merged_set(Set::empty(), local, remote) =~= local.union(remote));
}

/// The detail level of a placement, a ladder each rung of which takes in
/// the last.
#[derive(Clone, Copy, Debug, PartialEq, Eq, Structural)]
pub enum PimdirLevel {
    /// Handle known, nothing else; kept complete per collection.
    Probed,
    /// Minimal summary cached.
    Meta,
    /// Linked to a stored object body.
    Full,
}

impl PimdirLevel {
    /// The rung of the ladder, from the bottom.
    pub open spec fn rung(self) -> int {
        match self {
            PimdirLevel::Probed => 0,
            PimdirLevel::Meta => 1,
            PimdirLevel::Full => 2,
        }
    }

    /// The higher of two levels.
    pub open spec fn higher(self, other: PimdirLevel) -> PimdirLevel {
        if self.rung() >= other.rung() {
            self
        } else {
            other
        }
    }

    /// The lower of two levels.
    pub open spec fn lower(self, other: PimdirLevel) -> PimdirLevel {
        if self.rung() <= other.rung() {
            self
        } else {
            other
        }
    }

    /// The rung of the ladder, from the bottom.
    fn rank(self) -> (rank: u8)
        ensures
            rank == self.rung(),
    {
        match self {
            PimdirLevel::Probed => 0,
            PimdirLevel::Meta => 1,
            PimdirLevel::Full => 2,
        }
    }

    /// The higher of two levels.
    pub fn max(self, other: PimdirLevel) -> (level: PimdirLevel)
        ensures
            level == self.higher(other),
    {
        if self.rank() >= other.rank() {
            self
        } else {
            other
        }
    }

    /// The lower of two levels.
    pub fn min(self, other: PimdirLevel) -> (level: PimdirLevel)
        ensures
            level == self.lower(other),
    {
        if self.rank() <= other.rank() {
            self
        } else {
            other
        }
    }
}

/// How a placement relates to its sync base.
#[derive(Clone, Copy, Debug, PartialEq, Eq, Structural)]
pub enum PimdirStatus {
    /// In sync with the base; no pending push.
    Clean,
    /// Locally changed since the base; a push is pending.
    Dirty,
    /// Locally deleted since the base; a remove is pending.
    Tombstone,
    /// Content diverged on both sides, awaiting a resolving edit.
    Conflict,
    /// Locally created, its handle provisional until the push assigns one.
    Created,
}

/// Where a pending create's body already lives, for a server-side copy.
#[derive(Debug, PartialEq, Eq)]
pub struct PimdirOrigin {
    /// The collection the source member lives in.
    pub collection: PimdirCollectionId,
    /// The source member's handle.
    pub handle: PimdirHandle,
}

/// What a [`PimdirOrigin`] says, by value.
#[verifier::ext_equal]
pub struct OriginView {
    pub collection: Text,
    pub handle: Text,
}

impl View for PimdirOrigin {
    type V = OriginView;

    open spec fn view(&self) -> OriginView {
        OriginView {
            collection: self.collection@,
            handle: self.handle@,
        }
    }
}

impl DeepView for PimdirOrigin {
    type V = OriginView;

    open spec fn deep_view(&self) -> OriginView {
        self@
    }
}

impl Clone for PimdirOrigin {
    fn clone(&self) -> (copy: Self)
        ensures
            copy@ == self@,
    {
        PimdirOrigin {
            collection: self.collection.clone(),
            handle: self.handle.clone(),
        }
    }
}

/// The last-synced state a placement reconciles against.
///
/// Its existence is the membership base: a based placement was a member
/// as of the last sync.
#[derive(Debug, PartialEq, Eq)]
pub struct PimdirBase {
    /// Last-synced flag set.
    pub flags: PimdirFlags,
    /// Last-synced content revision, `None` where content is immutable.
    pub revision: Option<String>,
    /// Last-synced body, pinned so a content merge keeps its base bytes.
    pub object: Option<PimdirHash>,
}

/// What a [`PimdirBase`] says, by value.
#[verifier::ext_equal]
pub struct BaseView {
    pub flags: Option<Set<Text>>,
    pub revision: Option<Text>,
    pub object: Option<Text>,
}

impl View for PimdirBase {
    type V = BaseView;

    open spec fn view(&self) -> BaseView {
        BaseView {
            flags: self.flags@,
            revision: self.revision.deep_view(),
            object: self.object.deep_view(),
        }
    }
}

impl DeepView for PimdirBase {
    type V = BaseView;

    open spec fn deep_view(&self) -> BaseView {
        self@
    }
}

impl Clone for PimdirBase {
    fn clone(&self) -> (copy: Self)
        ensures
            copy@ == self@,
    {
        PimdirBase {
            flags: self.flags.clone(),
            revision: self.revision.clone(),
            object: self.object.clone(),
        }
    }
}

/// One item's presence in one collection.
#[derive(Debug, PartialEq, Eq)]
pub struct PimdirPlacement {
    /// The collection this placement belongs to.
    pub collection: PimdirCollectionId,
    /// The protocol handle within that collection.
    pub handle: PimdirHandle,
    /// The cross-collection link id; `None` until the summary is read.
    pub link_id: Option<PimdirLinkId>,
    /// The stored object body; `None` until the item is full.
    pub object: Option<PimdirHash>,
    /// The current detail level.
    pub level: PimdirLevel,
    /// The summary and addresses, `None` until fetched.
    pub summary: Option<PimdirSummary>,
    /// The sort key, derived beside the summary and as opaque here.
    pub sort_key: PimdirSortKey,
    /// The current flag set.
    pub flags: PimdirFlags,
    /// How this placement relates to its base.
    pub status: PimdirStatus,
    /// The remote revision a conflict was observed at.
    pub conflict_revision: Option<String>,
    /// The remote body at that revision, so a resolver needs no network.
    pub conflict_object: Option<PimdirHash>,
    /// The last-synced base; `None` until first reconciled.
    pub base: Option<PimdirBase>,
    /// Where a created body lives, `None` for an append.
    pub origin: Option<PimdirOrigin>,
}

/// What a [`PimdirPlacement`] says, by value.
#[verifier::ext_equal]
pub struct PlacementView {
    pub collection: Text,
    pub handle: Text,
    pub link_id: Option<Text>,
    pub object: Option<Text>,
    pub level: PimdirLevel,
    pub summary: Option<SummaryView>,
    pub sort_key: Text,
    pub flags: Option<Set<Text>>,
    pub status: PimdirStatus,
    pub conflict_revision: Option<Text>,
    pub conflict_object: Option<Text>,
    pub base: Option<BaseView>,
    pub origin: Option<OriginView>,
}

impl View for PimdirPlacement {
    type V = PlacementView;

    open spec fn view(&self) -> PlacementView {
        PlacementView {
            collection: self.collection@,
            handle: self.handle@,
            link_id: self.link_id.deep_view(),
            object: self.object.deep_view(),
            level: self.level,
            summary: self.summary.deep_view(),
            sort_key: self.sort_key@,
            flags: self.flags@,
            status: self.status,
            conflict_revision: self.conflict_revision.deep_view(),
            conflict_object: self.conflict_object.deep_view(),
            base: self.base.deep_view(),
            origin: self.origin.deep_view(),
        }
    }
}

impl DeepView for PimdirPlacement {
    type V = PlacementView;

    open spec fn deep_view(&self) -> PlacementView {
        self@
    }
}

impl Clone for PimdirPlacement {
    fn clone(&self) -> (copy: Self)
        ensures
            copy@ == self@,
    {
        PimdirPlacement {
            collection: self.collection.clone(),
            handle: self.handle.clone(),
            link_id: self.link_id.clone(),
            object: self.object.clone(),
            level: self.level,
            summary: self.summary.clone(),
            sort_key: self.sort_key.clone(),
            flags: self.flags.clone(),
            status: self.status,
            conflict_revision: self.conflict_revision.clone(),
            conflict_object: self.conflict_object.clone(),
            base: self.base.clone(),
            origin: self.origin.clone(),
        }
    }
}

/// The body staged locally but never synced.
pub open spec fn staged_body(placement: PlacementView) -> Option<Text> {
    match placement.object {
        None => None,
        Some(object) => if placement.base matches Some(base) && base.object == Some(object) {
            None
        } else {
            Some(object)
        },
    }
}

impl PimdirPlacement {
    /// The body staged locally but never synced, if any.
    ///
    /// Says nothing about the status, which each caller guards: a created
    /// placement has no base, so its body is staged too, a create rather
    /// than an edit.
    pub fn staged_edit(&self) -> (staged: Option<&PimdirHash>)
        ensures
            staged.deep_view() == staged_body(self@),
    {
        match &self.object {
            None => None,
            Some(object) => {
                let synced = match &self.base {
                    Some(base) => match &base.object {
                        Some(held) => held == object,
                        None => false,
                    },
                    None => false,
                };
                if synced {
                    None
                } else {
                    Some(object)
                }
            },
        }
    }
}

/// A placement holds a body staged but never synced exactly where it has a
/// body its base does not hold.
pub proof fn lemma_a_staged_body_is_not_the_synced_one(placement: PlacementView)
    ensures
        staged_body(placement) is Some ==> staged_body(placement) == placement.object,
        placement.object is None ==> staged_body(placement) is None,
        placement.object is Some && placement.base is None ==> staged_body(placement)
            == placement.object,
        placement.object is Some && placement.base is Some ==> (staged_body(placement) is None
            <==> placement.base->0.object == placement.object),
{
}

/// The levels rise from probed over meta to full; the higher of two is one
/// of them and not below the other, the lower one of them and not above.
pub proof fn lemma_the_levels_rise(a: PimdirLevel, b: PimdirLevel)
    ensures
        PimdirLevel::Probed.rung() < PimdirLevel::Meta.rung() < PimdirLevel::Full.rung(),
        a.higher(b) == a || a.higher(b) == b,
        a.higher(b).rung() >= a.rung() && a.higher(b).rung() >= b.rung(),
        a.lower(b) == a || a.lower(b) == b,
        a.lower(b).rung() <= a.rung() && a.lower(b).rung() <= b.rung(),
{
}

} // verus!

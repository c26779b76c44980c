//! # Content hash
//!
//! The content hash naming a body in the object store.
//!
//! An object's name is its hash, so every process touching one store must
//! compute the same value: a disagreement writes blobs no other reader
//! finds, and it fails silently, as a dedup that never dedups. The store
//! therefore records its algorithm in `store_meta.hash_algo` and hands the
//! digest out, rather than leaving each consumer to pick.
//!
//! The encoding is part of the contract: lowercase base32 (RFC 4648, no
//! padding), because the hash is also a path component and a single-case,
//! filesystem-safe alphabet is what keeps that path valid everywhere. Hex
//! would work on Linux and collide on a case-insensitive filesystem.

use crate::object::PimdirHash;
use crate::text::{push_char, text_same, Text};
use sha2::Digest;
use vstd::prelude::*;
use vstd::slice::*;
use vstd::string::*;

verus! {

/// A BLAKE3 digest in progress.
#[verifier::external_type_specification]
#[verifier::external_body]
pub struct ExBlake3Hasher(blake3::Hasher);

/// A SHA-256 digest in progress, of the `sha2` crate.
#[verifier::external_body]
pub struct PimdirSha256(sha2::Sha256);

/// The bytes fed to a BLAKE3 digest so far.
pub uninterp spec fn blake3_fed(hasher: blake3::Hasher) -> Seq<u8>;

/// The BLAKE3 digest of bytes.
pub uninterp spec fn blake3_digest(bytes: Seq<u8>) -> Seq<u8>;

/// The bytes fed to a SHA-256 digest so far.
pub uninterp spec fn sha256_fed(hasher: PimdirSha256) -> Seq<u8>;

/// The SHA-256 digest of bytes.
pub uninterp spec fn sha256_digest(bytes: Seq<u8>) -> Seq<u8>;

/// A new digest, by `blake3::Hasher::new`: nothing is fed to it yet.
#[verifier::external_body]
fn blake3_new() -> (hasher: blake3::Hasher)
    ensures
        blake3_fed(hasher) == Seq::<u8>::empty(),
{
    blake3::Hasher::new()
}

/// Feeds bytes, by `blake3::Hasher::update`: they follow what was fed
/// before.
#[verifier::external_body]
fn blake3_update(hasher: &mut blake3::Hasher, bytes: &[u8])
    ensures
        blake3_fed(*final(hasher)) == blake3_fed(*old(hasher)) + bytes@,
{
    hasher.update(bytes);
}

/// The digest of what was fed, by `blake3::Hasher::finalize`: a function of
/// those bytes alone, thirty-two bytes long.
#[verifier::external_body]
fn blake3_finalize(hasher: &blake3::Hasher) -> (digest: Vec<u8>)
    ensures
        digest@ == blake3_digest(blake3_fed(*hasher)),
        digest@.len() == 32,
{
    hasher.finalize().as_bytes().to_vec()
}

/// A new digest, by `sha2::Sha256::new`: nothing is fed to it yet.
#[verifier::external_body]
fn sha256_new() -> (hasher: PimdirSha256)
    ensures
        sha256_fed(hasher) == Seq::<u8>::empty(),
{
    PimdirSha256(sha2::Sha256::new())
}

/// Feeds bytes, by `sha2::Digest::update`: they follow what was fed before.
#[verifier::external_body]
fn sha256_update(hasher: &mut PimdirSha256, bytes: &[u8])
    ensures
        sha256_fed(*final(hasher)) == sha256_fed(*old(hasher)) + bytes@,
{
    hasher.0.update(bytes);
}

/// The digest of what was fed, by `sha2::Digest::finalize`: a function of
/// those bytes alone, thirty-two bytes long.
#[verifier::external_body]
fn sha256_finalize(hasher: PimdirSha256) -> (digest: Vec<u8>)
    ensures
        digest@ == sha256_digest(sha256_fed(hasher)),
        digest@.len() == 32,
{
    hasher.0.finalize().to_vec()
}

/// The hash a store names its objects by.
///
/// Recorded in `store_meta.hash_algo` when the store is created.
#[derive(Clone, Copy, Debug, PartialEq, Eq, Structural)]
pub enum PimdirHashAlgo {
    /// BLAKE3, the whole 256-bit digest, the recommended one.
    Blake3,
    /// SHA-256 truncated to its first 128 bits, for a consumer whose
    /// platform ships SHA-256 and would otherwise bundle a BLAKE3
    /// implementation.
    ///
    /// Content addressing needs collision resistance, not signature
    /// strength, and a 26-character name keeps the blob paths short.
    Sha256_128,
}

impl Default for PimdirHashAlgo {
    fn default() -> (algo: Self)
        ensures
            algo == PimdirHashAlgo::Blake3,
    {
        PimdirHashAlgo::Blake3
    }
}

impl PimdirHashAlgo {
    /// The spelling of an algorithm.
    pub open spec fn text(self) -> Text {
        match self {
            PimdirHashAlgo::Blake3 => "blake3"@,
            PimdirHashAlgo::Sha256_128 => "sha256-128"@,
        }
    }

    /// The digest a body's name encodes.
    pub open spec fn digest(self, body: Seq<u8>) -> Seq<u8> {
        match self {
            PimdirHashAlgo::Blake3 => blake3_digest(body),
            PimdirHashAlgo::Sha256_128 => sha256_digest(body).take(16),
        }
    }

    /// The name of a body in the object store.
    pub open spec fn name_of(self, body: Seq<u8>) -> Text {
        base32_text(self.digest(body))
    }

    /// How many characters a name of the algorithm takes.
    pub open spec fn name_length(self) -> nat {
        match self {
            PimdirHashAlgo::Blake3 => 52,
            PimdirHashAlgo::Sha256_128 => 26,
        }
    }

    /// The spelling `store_meta.hash_algo` carries.
    pub fn as_str(&self) -> (text: &'static str)
        ensures
            text@ == self.text(),
    {
        match self {
            PimdirHashAlgo::Blake3 => "blake3",
            PimdirHashAlgo::Sha256_128 => "sha256-128",
        }
    }

    /// The algorithm a stored spelling names, or `None` for one this crate
    /// does not implement, which a caller reports rather than guessing
    /// around.
    pub fn parse(algo: &str) -> (parsed: Option<Self>)
        ensures
            match parsed {
                Some(parsed) => parsed.text() == algo@,
                None => forall|other: PimdirHashAlgo| #[trigger] other.text() != algo@,
            },
    {
        if text_same(algo, "blake3") {
            Some(PimdirHashAlgo::Blake3)
        } else if text_same(algo, "sha256-128") {
            Some(PimdirHashAlgo::Sha256_128)
        } else {
            None
        }
    }

    /// The content hash of a whole body.
    pub fn hash(&self, bytes: &[u8]) -> (hash: PimdirHash)
        ensures
            hash@ == self.name_of(bytes@),
            hash@.len() == self.name_length(),
    {
        let mut hasher = self.hasher();
        hasher.update(bytes);
        assert(Seq::<u8>::empty() + bytes@ =~= bytes@);
        hasher.finish()
    }

    /// An incremental hasher, for a body streamed into the blob store
    /// rather than held whole in memory.
    pub fn hasher(&self) -> (hasher: PimdirHasher)
        ensures
            hasher@ == (HasherView { algo: *self, fed: Seq::empty() }),
    {
        match self {
            PimdirHashAlgo::Blake3 => PimdirHasher::Blake3(Box::new(blake3_new())),
            PimdirHashAlgo::Sha256_128 => PimdirHasher::Sha256_128(sha256_new()),
        }
    }
}

/// An algorithm round-trips through its stored spelling: no two share one.
pub proof fn lemma_an_algorithm_is_its_spelling(a: PimdirHashAlgo, b: PimdirHashAlgo)
    ensures
        a.text() == b.text() ==> a == b,
{
    reveal_strlit("blake3");
    reveal_strlit("sha256-128");
    assert("blake3"@.len() != "sha256-128"@.len());
}

/// An incremental hasher over a body's bytes.
///
/// Made by [`hasher`](PimdirHashAlgo::hasher), for a body streamed into the
/// blob store.
pub enum PimdirHasher {
    /// A BLAKE3 digest in progress, boxed: its state is nearly two
    /// kilobytes, which would otherwise size every hasher this enum hands
    /// out.
    Blake3(Box<blake3::Hasher>),
    /// A SHA-256 digest in progress, truncated when it finishes.
    Sha256_128(PimdirSha256),
}

/// A hasher, by value: its algorithm and the bytes fed to it.
#[verifier::ext_equal]
pub struct HasherView {
    pub algo: PimdirHashAlgo,
    pub fed: Seq<u8>,
}

impl View for PimdirHasher {
    type V = HasherView;

    open spec fn view(&self) -> HasherView {
        match *self {
            PimdirHasher::Blake3(hasher) => HasherView {
                algo: PimdirHashAlgo::Blake3,
                fed: blake3_fed(*hasher),
            },
            PimdirHasher::Sha256_128(hasher) => HasherView {
                algo: PimdirHashAlgo::Sha256_128,
                fed: sha256_fed(hasher),
            },
        }
    }
}

impl HasherView {
    /// The hasher after more bytes.
    pub open spec fn fed_with(self, bytes: Seq<u8>) -> HasherView {
        HasherView { fed: self.fed + bytes, ..self }
    }

    /// The hasher after one run of bytes after another.
    pub open spec fn fed_with_all(self, runs: Seq<Seq<u8>>) -> HasherView
        decreases runs.len(),
    {
        if runs.len() == 0 {
            self
        } else {
            self.fed_with_all(runs.drop_last()).fed_with(runs.last())
        }
    }

    /// The finished hash.
    pub open spec fn name(self) -> Text {
        self.algo.name_of(self.fed)
    }
}

impl PimdirHasher {
    /// Feeds the next bytes of the body.
    pub fn update(&mut self, bytes: &[u8])
        ensures
            final(self)@ == old(self)@.fed_with(bytes@),
    {
        match self {
            PimdirHasher::Blake3(hasher) => blake3_update(hasher, bytes),
            PimdirHasher::Sha256_128(hasher) => sha256_update(hasher, bytes),
        }
    }

    /// The finished hash, as the object store names it.
    pub fn finish(self) -> (hash: PimdirHash)
        ensures
            hash@ == self@.name(),
            hash@.len() == self@.algo.name_length(),
    {
        match self {
            PimdirHasher::Blake3(hasher) => PimdirHash(
                base32(blake3_finalize(&hasher).as_slice()),
            ),
            PimdirHasher::Sha256_128(hasher) => {
                let digest = sha256_finalize(hasher);
                let short = slice_subrange(digest.as_slice(), 0, 16);
                assert(short@ =~= digest@.take(16));
                PimdirHash(base32(short))
            },
        }
    }
}

/// A streamed body hashes like a whole one, however it is cut.
pub proof fn lemma_a_streamed_body_hashes_like_a_whole_one(algo: PimdirHashAlgo, runs: Seq<Seq<u8>>)
    ensures
        (HasherView { algo, fed: Seq::empty() }).fed_with_all(runs).name() == algo.name_of(
            runs.flatten(),
        ),
{
    lemma_fed_is_flat(HasherView { algo, fed: Seq::empty() }, runs);
    assert(Seq::<u8>::empty() + runs.flatten() =~= runs.flatten());
}

proof fn lemma_fed_is_flat(hasher: HasherView, runs: Seq<Seq<u8>>)
    ensures
        hasher.fed_with_all(runs) == hasher.fed_with(runs.flatten()),
    decreases runs.len(),
{
    if runs.len() == 0 {
        assert(runs.flatten() =~= Seq::<u8>::empty());
        assert(hasher.fed + Seq::<u8>::empty() =~= hasher.fed);
    } else {
        lemma_fed_is_flat(hasher, runs.drop_last());
        assert(runs =~= runs.drop_last().push(runs.last()));
        runs.drop_last().lemma_flatten_push(runs.last());
        assert(hasher.fed + runs.flatten() =~= hasher.fed + runs.drop_last().flatten()
            + runs.last());
    }
}

/// The value of five bits as its base32 character.
pub open spec fn base32_char(value: int) -> char {
    "abcdefghijklmnopqrstuvwxyz234567"@[value]
}

/// The five bits from a place on, bits past the end zero, the first bit of
/// a byte its highest.
pub open spec fn five_bits(bytes: Seq<u8>, place: int) -> int {
    let i = place / 8;
    let high = bytes[i] as int;
    let low = if i + 1 < bytes.len() {
        bytes[i + 1] as int
    } else {
        0
    };
    (high * 256 + low) / bit_weight(11 - place % 8) % 32
}

/// Two to the given power, up to eleven.
pub open spec fn bit_weight(n: int) -> int {
    if n == 4 {
        16
    } else if n == 5 {
        32
    } else if n == 6 {
        64
    } else if n == 7 {
        128
    } else if n == 8 {
        256
    } else if n == 9 {
        512
    } else if n == 10 {
        1024
    } else {
        2048
    }
}

/// Bytes in lowercase base32, unpadded.
pub open spec fn base32_text(bytes: Seq<u8>) -> Text {
    Seq::new(((bytes.len() * 8 + 4) / 5) as nat, |j: int| base32_char(five_bits(bytes, 5 * j)))
}

/// Lowercase base32 (RFC 4648, no padding), the encoding of an object name.
///
/// A digest length is rarely a multiple of five bits, so the last character
/// carries the leftover bits padded with zeroes, which is what RFC 4648
/// prescribes once its padding characters are dropped.
pub fn base32(digest: &[u8]) -> (name: String)
    ensures
        name@ == base32_text(digest@),
{
    let mut name = String::new();
    let mut i: usize = 0;
    let mut r: usize = 0;
    proof {
        reveal_strlit("abcdefghijklmnopqrstuvwxyz234567");
    }
    while i < digest.len()
        invariant
            i <= digest.len(),
            r < 8,
            i == digest.len() ==> 8 * i + r < 8 * digest.len() + 5,
            "abcdefghijklmnopqrstuvwxyz234567"@.len() == 32,
            (8 * i + r) % 5 == 0,
            name@ =~= Seq::new(((8 * i + r) / 5) as nat, |j: int| base32_char(five_bits(digest@, 5 * j))),
        decreases 8 * (digest.len() - i) + 8 - r,
    {
        let low: u32 = if i + 1 < digest.len() {
            digest[i + 1] as u32
        } else {
            0
        };
        let pair: u32 = digest[i] as u32 * 256 + low;
        let weight: u32 = match r {
            0 => 2048,
            1 => 1024,
            2 => 512,
            3 => 256,
            4 => 128,
            5 => 64,
            6 => 32,
            _ => 16,
        };
        let value: u32 = pair / weight % 32;
        let ghost j = (8 * i + r) / 5;
        proof {
            assert(5 * j == 8 * i + r);
            assert((5 * j) / 8 == i);
            assert((5 * j) % 8 == r);
            assert(value as int == five_bits(digest@, 5 * j));
        }
        push_char(
            &mut name,
            "abcdefghijklmnopqrstuvwxyz234567".get_char(value as usize),
        );
        if r + 5 >= 8 {
            i = i + 1;
            r = r - 3;
        } else {
            r = r + 5;
        }
    }
    proof {
        assert((8 * i + r) / 5 == (digest@.len() * 8 + 4) / 5);
    }
    assert(name@ =~= base32_text(digest@));
    name
}

/// The name of a digest is as long as its bits take, five to a character.
pub proof fn lemma_names_have_one_length(bytes: Seq<u8>)
    ensures
        base32_text(bytes).len() == (bytes.len() * 8 + 4) / 5,
        bytes.len() == 16 ==> base32_text(bytes).len() == 26,
        bytes.len() == 32 ==> base32_text(bytes).len() == 52,
{
}

/// A name holds lowercase letters and the digits two to seven alone, so it
/// is one path component on any filesystem.
pub proof fn lemma_names_are_single_case(bytes: Seq<u8>, j: int)
    requires
        0 <= j < base32_text(bytes).len(),
    ensures
        'a' <= base32_text(bytes)[j] <= 'z' || '2' <= base32_text(bytes)[j] <= '7',
{
    reveal_strlit("abcdefghijklmnopqrstuvwxyz234567");
    assert(0 <= five_bits(bytes, 5 * j) < 32);
}

proof fn lemma_base32_char(a: int, b: int)
    requires
        0 <= a < 32,
        0 <= b < 32,
        base32_char(a) == base32_char(b),
    ensures
        a == b,
{
    reveal_strlit("abcdefghijklmnopqrstuvwxyz234567");
    assert(base32_char(a) as u32 == if a < 26 {
        97 + a
    } else {
        24 + a
    });
    assert(base32_char(b) as u32 == if b < 26 {
        97 + b
    } else {
        24 + b
    });
}

/// A byte is what its own bits in overlapping pairs of bytes add up to.
proof fn lemma_bits_of_pairs(p: u32, b: u32, n: u32)
    by (bit_vector)
    requires
        p < 256,
        b < 256,
        n < 256,
    ensures
        b == (b * 256 + n) / 2048 % 32 * 8 + (b * 256 + n) / 64 % 32 / 4,
        b == (p * 256 + b) / 64 % 32 % 4 * 64 + (b * 256 + n) / 512 % 32 * 2 + (b * 256 + n) / 16
            % 32 / 16,
        b == (p * 256 + b) / 16 % 32 % 16 * 16 + (b * 256 + n) / 128 % 32 / 2,
        b == (p * 256 + b) / 128 % 32 % 2 * 128 + (b * 256 + n) / 1024 % 32 * 4 + (b * 256 + n) / 32
            % 32 / 8,
        b == (p * 256 + b) / 32 % 32 % 8 * 32 + (b * 256 + n) / 256 % 32,
{
}

/// The byte at a place, and the one behind it, zero past the end.
spec fn pair_at(bytes: Seq<u8>, i: int) -> int {
    bytes[i] as int * 256 + if i + 1 < bytes.len() {
        bytes[i + 1] as int
    } else {
        0
    }
}

proof fn lemma_five_bits(bytes: Seq<u8>, i: int, r: int)
    requires
        0 <= i < bytes.len(),
        0 <= r < 8,
    ensures
        five_bits(bytes, 8 * i + r) == pair_at(bytes, i) / bit_weight(11 - r) % 32,
{
    assert((8 * i + r) / 8 == i);
    assert((8 * i + r) % 8 == r);
}

/// The byte five-bit values give back.
#[verifier::spinoff_prover]
#[verifier::rlimit(60)]
proof fn lemma_byte_of_bits(bytes: Seq<u8>, i: int)
    requires
        0 <= i < bytes.len(),
    ensures
        ({
            let j = (8 * i) / 5;
            let v0 = five_bits(bytes, 5 * j);
            let v1 = five_bits(bytes, 5 * (j + 1));
            let v2 = five_bits(bytes, 5 * (j + 2));
            bytes[i] as int == if i % 5 == 0 {
                v0 * 8 + v1 / 4
            } else if i % 5 == 1 {
                v0 % 4 * 64 + v1 * 2 + v2 / 16
            } else if i % 5 == 2 {
                v0 % 16 * 16 + v1 / 2
            } else if i % 5 == 3 {
                v0 % 2 * 128 + v1 * 4 + v2 / 8
            } else {
                v0 % 8 * 32 + v1
            }
        }),
{
    let j = (8 * i) / 5;
    let b = bytes[i] as u32;
    let n = if i + 1 < bytes.len() {
        bytes[i + 1] as u32
    } else {
        0
    };
    let p = if i > 0 {
        bytes[i - 1] as u32
    } else {
        0
    };
    lemma_bits_of_pairs(p, b, n);
    assert(pair_at(bytes, i) == b * 256 + n);
    if i % 5 == 0 {
        assert(5 * j == 8 * i + 0 && 5 * (j + 1) == 8 * i + 5);
        lemma_five_bits(bytes, i, 0);
        lemma_five_bits(bytes, i, 5);
    } else {
        assert(pair_at(bytes, i - 1) == p * 256 + b);
        if i % 5 == 1 {
            assert(5 * j == 8 * (i - 1) + 5 && 5 * (j + 1) == 8 * i + 2 && 5 * (j + 2) == 8 * i + 7);
            lemma_five_bits(bytes, i - 1, 5);
            lemma_five_bits(bytes, i, 2);
            lemma_five_bits(bytes, i, 7);
        } else if i % 5 == 2 {
            assert(5 * j == 8 * (i - 1) + 7 && 5 * (j + 1) == 8 * i + 4);
            lemma_five_bits(bytes, i - 1, 7);
            lemma_five_bits(bytes, i, 4);
        } else if i % 5 == 3 {
            assert(5 * j == 8 * (i - 1) + 4 && 5 * (j + 1) == 8 * i + 1 && 5 * (j + 2) == 8 * i + 6);
            lemma_five_bits(bytes, i - 1, 4);
            lemma_five_bits(bytes, i, 1);
            lemma_five_bits(bytes, i, 6);
        } else {
            assert(5 * j == 8 * (i - 1) + 6 && 5 * (j + 1) == 8 * i + 3);
            lemma_five_bits(bytes, i - 1, 6);
            lemma_five_bits(bytes, i, 3);
        }
    }
}

/// Two digests of one length share a name only where they are the same.
pub proof fn lemma_a_name_is_its_digest(a: Seq<u8>, b: Seq<u8>)
    requires
        a.len() == b.len(),
        base32_text(a) == base32_text(b),
    ensures
        a == b,
{
    assert forall|j: int| 0 <= j < (a.len() * 8 + 4) / 5 implies #[trigger] five_bits(a, 5 * j)
        == five_bits(b, 5 * j) by {
        assert(base32_text(a)[j] == base32_char(five_bits(a, 5 * j)));
        assert(base32_text(b)[j] == base32_char(five_bits(b, 5 * j)));
        lemma_base32_char(five_bits(a, 5 * j), five_bits(b, 5 * j));
    }
    assert forall|i: int| 0 <= i < a.len() implies a[i] == b[i] by {
        lemma_byte_of_bits(a, i);
        lemma_byte_of_bits(b, i);
        let j = (8 * i) / 5;
        let n = (a.len() * 8 + 4) / 5;
        assert(j + 1 < n);
        assert(five_bits(a, 5 * j) == five_bits(b, 5 * j));
        assert(five_bits(a, 5 * (j + 1)) == five_bits(b, 5 * (j + 1)));
        if i % 5 == 1 || i % 5 == 3 {
            assert(j + 2 < n);
            assert(five_bits(a, 5 * (j + 2)) == five_bits(b, 5 * (j + 2)));
        }
    }
    assert(a =~= b);
}

} // verus!

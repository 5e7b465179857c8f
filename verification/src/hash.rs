//! Hash values, and the hash functions that they come from.
use crate::text;
use highway::HighwayHash;
use sha2::Digest;
use vstd::prelude::*;

verus! {

/// What BLAKE3 gives for a message: 32 bytes.
pub uninterp spec fn blake3_of(message: Seq<u8>) -> Seq<u8>;

/// What SHA-512 gives for a message: 64 bytes.
pub uninterp spec fn sha512_of(message: Seq<u8>) -> Seq<u8>;

/// What SHA-256 gives for a message: 32 bytes.
pub uninterp spec fn sha256_of(message: Seq<u8>) -> Seq<u8>;

/// What SHA-512/256 gives for a message: 32 bytes.
pub uninterp spec fn sha512_256_of(message: Seq<u8>) -> Seq<u8>;

/// What SHA-224 gives for a message: 28 bytes.
pub uninterp spec fn sha224_of(message: Seq<u8>) -> Seq<u8>;

/// What SHA-512/224 gives for a message: 28 bytes.
pub uninterp spec fn sha512_224_of(message: Seq<u8>) -> Seq<u8>;

/// What HighwayHash with the default key gives for a message, as 64 bits.
pub uninterp spec fn highway_of(message: Seq<u8>) -> u64;

/// `blake3::Hasher`: the BLAKE3 hash of all bytes that `update` was given, one after the other, is
/// a function of those bytes alone and 32 bytes long.
#[verifier::external_body]
fn blake3(j: u8, value: &[u8]) -> (r: [u8; 32])
    ensures
        r@ == blake3_of(seq![j] + value@),
{
    *blake3::Hasher::new().update(&[j]).update(value).finalize().as_bytes()
}

/// `sha2::Sha512`: the SHA-512 hash of all bytes that `chain_update` was given, one after the
/// other, is a function of those bytes alone and 64 bytes long.
#[verifier::external_body]
fn sha512(j: u8, value: &[u8]) -> (r: [u8; 64])
    ensures
        r@ == sha512_of(seq![j] + value@),
{
    sha2::Sha512::new().chain_update([j]).chain_update(value).finalize().into()
}

/// `sha2::Sha256`: the SHA-256 hash of all bytes that `chain_update` was given, one after the
/// other, is a function of those bytes alone and 32 bytes long.
#[verifier::external_body]
fn sha256(j: u8, value: &[u8]) -> (r: [u8; 32])
    ensures
        r@ == sha256_of(seq![j] + value@),
{
    sha2::Sha256::new().chain_update([j]).chain_update(value).finalize().into()
}

/// `sha2::Sha512_256`: the SHA-512/256 hash of all bytes that `chain_update` was given, one after
/// the other, is a function of those bytes alone and 32 bytes long.
#[verifier::external_body]
fn sha512_256(j: u8, value: &[u8]) -> (r: [u8; 32])
    ensures
        r@ == sha512_256_of(seq![j] + value@),
{
    sha2::Sha512_256::new().chain_update([j]).chain_update(value).finalize().into()
}

/// `sha2::Sha224`: the SHA-224 hash of all bytes that `chain_update` was given, one after the
/// other, is a function of those bytes alone and 28 bytes long.
#[verifier::external_body]
fn sha224(j: u8, value: &[u8]) -> (r: [u8; 28])
    ensures
        r@ == sha224_of(seq![j] + value@),
{
    sha2::Sha224::new().chain_update([j]).chain_update(value).finalize().into()
}

/// `sha2::Sha512_224`: the SHA-512/224 hash of all bytes that `chain_update` was given, one after
/// the other, is a function of those bytes alone and 28 bytes long.
#[verifier::external_body]
fn sha512_224(j: u8, value: &[u8]) -> (r: [u8; 28])
    ensures
        r@ == sha512_224_of(seq![j] + value@),
{
    sha2::Sha512_224::new().chain_update([j]).chain_update(value).finalize().into()
}

/// `highway::HighwayHash::hash64`, on the hasher with the default key: the 64-bit hash is a
/// function of the bytes alone.
#[verifier::external_body]
pub(crate) fn highway64(value: &[u8]) -> (r: u64)
    ensures
        r == highway_of(value@),
{
    highway::HighwayHasher::default().hash64(value)
}

/// The hash functions that a tree can be built with, from the strongest to the weakest.
#[derive(PartialEq, Eq, Structural, Copy, Clone, Debug)]
pub enum Algorithm {
    Blake3,
    Sha512,
    Sha256,
    Sha512_256,
    Sha224,
    Sha512_224,
    HighwayHash64,
}

/// Which hash functions are at hand.
#[derive(PartialEq, Eq, Structural, Copy, Clone, Debug)]
pub struct Features {
    pub blake3: bool,
    pub sha512: bool,
    pub sha256: bool,
    pub sha512_256: bool,
    pub sha224: bool,
    pub sha512_224: bool,
    pub highwayhash64: bool,
}

impl Features {
    /// Whether the algorithm is at hand.
    pub open spec fn offers(&self, algorithm: Algorithm) -> bool {
        match algorithm {
            Algorithm::Blake3 => self.blake3,
            Algorithm::Sha512 => self.sha512,
            Algorithm::Sha256 => self.sha256,
            Algorithm::Sha512_256 => self.sha512_256,
            Algorithm::Sha224 => self.sha224,
            Algorithm::Sha512_224 => self.sha512_224,
            Algorithm::HighwayHash64 => self.highwayhash64,
        }
    }

    /// The strongest algorithm at hand, if there is any.
    pub fn strongest(&self) -> (r: Option<Algorithm>)
        ensures
            r is None ==> forall|a: Algorithm| !#[trigger] self.offers(a),
            r matches Some(algorithm) ==> self.offers(algorithm) && forall|a: Algorithm| #[trigger]
                self.offers(a) ==> algorithm.rank() <= a.rank(),
    {
        if self.blake3 {
            Some(Algorithm::Blake3)
        } else if self.sha512 {
            Some(Algorithm::Sha512)
        } else if self.sha256 {
            Some(Algorithm::Sha256)
        } else if self.sha512_256 {
            Some(Algorithm::Sha512_256)
        } else if self.sha224 {
            Some(Algorithm::Sha224)
        } else if self.sha512_224 {
            Some(Algorithm::Sha512_224)
        } else if self.highwayhash64 {
            Some(Algorithm::HighwayHash64)
        } else {
            None
        }
    }
}

impl Algorithm {
    /// The place in the order of strength; 0 is the strongest.
    pub open spec fn rank(&self) -> nat {
        match self {
            Algorithm::Blake3 => 0,
            Algorithm::Sha512 => 1,
            Algorithm::Sha256 => 2,
            Algorithm::Sha512_256 => 3,
            Algorithm::Sha224 => 4,
            Algorithm::Sha512_224 => 5,
            Algorithm::HighwayHash64 => 6,
        }
    }

    /// The number of bytes of a hash value.
    pub open spec fn width(&self) -> nat {
        match self {
            Algorithm::Blake3 | Algorithm::Sha256 | Algorithm::Sha512_256 => 32,
            Algorithm::Sha512 => 64,
            Algorithm::Sha224 | Algorithm::Sha512_224 => 28,
            Algorithm::HighwayHash64 => 8,
        }
    }

    /// The hash value of a message.
    pub open spec fn hash_of(&self, message: Seq<u8>) -> Seq<u8> {
        match self {
            Algorithm::Blake3 => blake3_of(message),
            Algorithm::Sha512 => sha512_of(message),
            Algorithm::Sha256 => sha256_of(message),
            Algorithm::Sha512_256 => sha512_256_of(message),
            Algorithm::Sha224 => sha224_of(message),
            Algorithm::Sha512_224 => sha512_224_of(message),
            Algorithm::HighwayHash64 => vstd::bytes::spec_u64_to_le_bytes(highway_of(message)),
        }
    }

    /// The number of bytes of a hash value.
    pub fn size(&self) -> (r: usize)
        ensures
            r == self.width(),
    {
        match self {
            Algorithm::Blake3 => 32,
            Algorithm::Sha512 => 64,
            Algorithm::Sha256 => 32,
            Algorithm::Sha512_256 => 32,
            Algorithm::Sha224 => 28,
            Algorithm::Sha512_224 => 28,
            Algorithm::HighwayHash64 => 8,
        }
    }

    /// The hash value of `j` followed by the value.
    pub fn digest(&self, j: u8, value: &[u8]) -> (r: Vec<u8>)
        ensures
            r@ == self.hash_of(seq![j] + value@),
            r@.len() == self.width(),
            *self == Algorithm::Blake3 ==> r@ == blake3_of(seq![j] + value@),
            *self == Algorithm::Sha512 ==> r@ == sha512_of(seq![j] + value@),
            *self == Algorithm::Sha256 ==> r@ == sha256_of(seq![j] + value@),
            *self == Algorithm::Sha512_256 ==> r@ == sha512_256_of(seq![j] + value@),
            *self == Algorithm::Sha224 ==> r@ == sha224_of(seq![j] + value@),
            *self == Algorithm::Sha512_224 ==> r@ == sha512_224_of(seq![j] + value@),
            *self == Algorithm::HighwayHash64 ==> vstd::bytes::spec_u64_from_le_bytes(r@)
                == highway_of(seq![j] + value@),
    {
        match self {
            Algorithm::Blake3 => vstd::slice::slice_to_vec(blake3(j, value).as_slice()),
            Algorithm::Sha512 => vstd::slice::slice_to_vec(sha512(j, value).as_slice()),
            Algorithm::Sha256 => vstd::slice::slice_to_vec(sha256(j, value).as_slice()),
            Algorithm::Sha512_256 => vstd::slice::slice_to_vec(sha512_256(j, value).as_slice()),
            Algorithm::Sha224 => vstd::slice::slice_to_vec(sha224(j, value).as_slice()),
            Algorithm::Sha512_224 => vstd::slice::slice_to_vec(sha512_224(j, value).as_slice()),
            Algorithm::HighwayHash64 => {
                let mut message: Vec<u8> = Vec::new();
                message.push(j);
                message.extend_from_slice(value);
                proof {
                    assert(message@ =~= seq![j] + value@);
                }
                proof {
                    vstd::bytes::lemma_auto_spec_u64_to_from_le_bytes();
                }
                vstd::bytes::u64_to_le_bytes(highway64(message.as_slice()))
            },
        }
    }
}

/// The hash value `hash(j || message)` of a node of height `j`.
pub open spec fn digest(j: u8, message: Seq<u8>) -> Seq<u8> {
    let hash = blake3_of(seq![j] + message);
    Seq::new(32, |k: int| hash[k])
}

impl PartialEq for crate::Hash {
    fn eq(&self, other: &crate::Hash) -> (r: bool) {
        let mut k: usize = 0;
        while k < 32
            invariant
                k <= 32,
                forall|x: int| 0 <= x < k ==> self.value@[x] == other.value@[x],
            decreases 32 - k,
        {
            if self.value[k] != other.value[k] {
                return false;
            }
            k = k + 1;
        }
        proof {
            assert(self.value =~= other.value);
        }
        true
    }
}

impl vstd::std_specs::cmp::PartialEqSpecImpl for crate::Hash {
    open spec fn obeys_eq_spec() -> bool {
        true
    }

    open spec fn eq_spec(&self, other: &crate::Hash) -> bool {
        self == other
    }
}

impl Eq for crate::Hash {

}

impl View for crate::Hash {
    type V = Seq<u8>;

    open spec fn view(&self) -> Seq<u8> {
        self.value@
    }
}

impl crate::Hash {
    /// The number of bytes of a hash value.
    pub const SIZE: usize = 32;

    pub fn new(hash: [u8; 32]) -> (r: crate::Hash)
        ensures
            r.value == hash,
    {
        crate::Hash { value: hash }
    }

    /// The hash value of the given bytes at the height `j`.
    pub fn from_bytes(j: u8, value: &[u8]) -> (r: crate::Hash)
        ensures
            r@ == digest(j, value@),
            r@ == blake3_of(seq![j] + value@),
    {
        let hash: [u8; 32] = blake3(j, value);
        proof {
            assert(hash@ =~= digest(j, value@));
        }
        crate::Hash { value: hash }
    }

    /// The hash value `hash(j || self || other)`.
    pub fn combine(&self, j: u8, other: &crate::Hash) -> (r: crate::Hash)
        ensures
            r@ == digest(j, self@ + other@),
            r@ == blake3_of(seq![j] + self@ + other@),
    {
        let mut value: Vec<u8> = Vec::with_capacity(Self::SIZE * 2);
        value.extend_from_slice(self.value.as_slice());
        value.extend_from_slice(other.value.as_slice());
        proof {
            assert(value@ =~= self@ + other@);
            assert(seq![j] + value@ =~= seq![j] + self@ + other@);
        }
        crate::Hash::from_bytes(j, value.as_slice())
    }

    /// The hash value in hexadecimal.
    pub fn to_str(&self) -> (r: String)
        ensures
            r@ == text::hex_of(self@),
    {
        text::hex(self.value.as_slice())
    }

    /// The hash value with the given bytes.
    pub(crate) fn from_slice(bytes: &[u8]) -> (r: crate::Hash)
        requires
            bytes@.len() == 32,
        ensures
            r@ == bytes@,
    {
        let mut value: [u8; 32] = [0u8; 32];
        let mut k: usize = 0;
        while k < 32
            invariant
                k <= 32,
                bytes@.len() == 32,
                forall|x: int| 0 <= x < k ==> value@[x] == bytes@[x],
            decreases 32 - k,
        {
            value[k] = bytes[k];
            k = k + 1;
        }
        proof {
            assert(value@ =~= bytes@);
        }
        crate::Hash { value }
    }
}

impl From<&[u8; 32]> for crate::Hash {
    fn from(hash: &[u8; 32]) -> (r: crate::Hash) {
        crate::Hash::new(*hash)
    }
}

impl vstd::std_specs::convert::FromSpecImpl<&[u8; 32]> for crate::Hash {
    open spec fn obeys_from_spec() -> bool {
        true
    }

    open spec fn from_spec(hash: &[u8; 32]) -> crate::Hash {
        crate::Hash { value: *hash }
    }
}

/// Two hash values with the same bytes are the same.
pub proof fn lemma_same_bytes(a: crate::Hash, b: crate::Hash)
    ensures
        a@ == b@ <==> a == b,
{
    if a@ == b@ {
        assert(a.value =~= b.value);
    }
}

/// The hash value of a message at a height is the first 32 bytes of the BLAKE3 hash of the height
/// followed by the complete message.
pub proof fn law_digest_is_blake3(j: u8, message: Seq<u8>)
    ensures
        digest(j, message).len() == 32,
        forall|k: int|
            0 <= k < 32 ==> #[trigger] digest(j, message)[k] == blake3_of(seq![j] + message)[k],
        blake3_of(seq![j] + message).len() == 32 ==> digest(j, message) == blake3_of(
            seq![j] + message,
        ),
{
    if blake3_of(seq![j] + message).len() == 32 {
        assert(digest(j, message) =~= blake3_of(seq![j] + message));
    }
}

/// Two messages with the same hash value are the same at the same height, or two different inputs of
/// BLAKE3 agree in the first 32 bytes of their hashes.
pub proof fn law_digest_collision(j: u8, one: Seq<u8>, k: u8, two: Seq<u8>)
    requires
        digest(j, one) == digest(k, two),
    ensures
        (j == k && one == two) || (seq![j] + one != seq![k] + two && forall|x: int|
            0 <= x < 32 ==> #[trigger] blake3_of(seq![j] + one)[x] == blake3_of(seq![k] + two)[x]),
{
    law_digest_is_blake3(j, one);
    law_digest_is_blake3(k, two);
    let a = seq![j] + one;
    let b = seq![k] + two;
    assert forall|x: int| 0 <= x < 32 implies #[trigger] blake3_of(a)[x] == blake3_of(b)[x] by {
        assert(digest(j, one)[x] == blake3_of(a)[x]);
        assert(digest(k, two)[x] == blake3_of(b)[x]);
    }
    if a == b {
        assert(a[0] == j && b[0] == k);
        assert(a.skip(1) =~= one);
        assert(b.skip(1) =~= two);
    }
}

/// Every algorithm hashes the complete message with the function that it is named after.
pub proof fn law_algorithms(message: Seq<u8>)
    ensures
        Algorithm::Blake3.hash_of(message) == blake3_of(message),
        Algorithm::Sha512.hash_of(message) == sha512_of(message),
        Algorithm::Sha256.hash_of(message) == sha256_of(message),
        Algorithm::Sha512_256.hash_of(message) == sha512_256_of(message),
        Algorithm::Sha224.hash_of(message) == sha224_of(message),
        Algorithm::Sha512_224.hash_of(message) == sha512_224_of(message),
        Algorithm::HighwayHash64.hash_of(message).len() == 8,
        vstd::bytes::spec_u64_from_le_bytes(Algorithm::HighwayHash64.hash_of(message))
            == highway_of(message),
{
    vstd::bytes::lemma_auto_spec_u64_to_from_le_bytes();
}

/// Of two algorithms the one that comes first in the list is the stronger one, and an algorithm is
/// at hand exactly if its feature is set.
pub proof fn law_order_of_strength(f: Features)
    ensures
        Algorithm::Blake3.rank() < Algorithm::Sha512.rank() < Algorithm::Sha256.rank()
            < Algorithm::Sha512_256.rank() < Algorithm::Sha224.rank()
            < Algorithm::Sha512_224.rank() < Algorithm::HighwayHash64.rank(),
        f.offers(Algorithm::Blake3) <==> f.blake3,
        f.offers(Algorithm::Sha512) <==> f.sha512,
        f.offers(Algorithm::Sha256) <==> f.sha256,
        f.offers(Algorithm::Sha512_256) <==> f.sha512_256,
        f.offers(Algorithm::Sha224) <==> f.sha224,
        f.offers(Algorithm::Sha512_224) <==> f.sha512_224,
        f.offers(Algorithm::HighwayHash64) <==> f.highwayhash64,
{
}

} // verus!

//! Content digests: a SHA-256 fingerprint together with the length of what
//! was hashed.

use vstd::prelude::*;

verus! {

/// The SHA-256 hash of a byte string. The hash is a function of the bytes
/// alone; nothing else is claimed about it here.
pub uninterp spec fn sha256_of(data: Seq<u8>) -> Seq<u8>;

/// Calls `sha2::Sha256::digest` (the `digest` method of the `Digest` trait)
/// on `data` and hands back its 32 output bytes. Trusted: the result is the
/// SHA-256 hash of exactly the bytes passed in.
#[verifier::external_body]
fn sha256(data: &[u8]) -> (hash: [u8; 32])
    ensures
        hash@ == sha256_of(data@),
{
    <sha2::Sha256 as sha2::Digest>::digest(data).into()
}

/// A SHA-256 hash value.
#[derive(Clone, Copy, Debug, PartialEq, Eq, Hash)]
pub struct Fingerprint(pub [u8; 32]);

/// A fingerprint and the number of bytes that were hashed to obtain it.
#[derive(Clone, Copy, Debug, PartialEq, Eq, Hash)]
pub struct Digest(pub Fingerprint, pub usize);

/// The model of a [`Digest`]: the hash as a sequence of bytes, and the
/// length.
pub struct DigestView {
    pub fingerprint: Seq<u8>,
    pub size: nat,
}

impl View for Fingerprint {
    type V = Seq<u8>;

    open spec fn view(&self) -> Seq<u8> {
        self.0@
    }
}

impl View for Digest {
    type V = DigestView;

    open spec fn view(&self) -> DigestView {
        DigestView { fingerprint: self.0@, size: self.1 as nat }
    }
}

/// The digest of the empty byte string.
pub open spec fn empty_digest_view() -> DigestView {
    DigestView { fingerprint: sha256_of(Seq::<u8>::empty()), size: 0 }
}

impl Fingerprint {
    /// Tells whether two fingerprints hold the same 32 bytes.
    pub fn same_as(&self, other: &Fingerprint) -> (b: bool)
        ensures
            b == (self@ == other@),
    {
        let mut i: usize = 0;
        while i < 32
            invariant
                i <= 32,
                forall|j: int| 0 <= j < i ==> self.0@[j] == other.0@[j],
            decreases 32 - i,
        {
            if self.0[i] != other.0[i] {
                return false;
            }
            i = i + 1;
        }
        assert(self.0@ =~= other.0@);
        true
    }
}

impl Digest {
    /// The digest of `bytes`: their SHA-256 hash and their number.
    pub fn of_bytes(bytes: &[u8]) -> (d: Digest)
        ensures
            d@.fingerprint == sha256_of(bytes@),
            d@.size == bytes@.len(),
    {
        Digest(Fingerprint(sha256(bytes)), bytes.len())
    }

    /// Tells whether two digests agree in fingerprint and length.
    pub fn same_as(&self, other: &Digest) -> (b: bool)
        ensures
            b == (self@ == other@),
    {
        self.1 == other.1 && self.0.same_as(&other.0)
    }
}

/// The digest of the empty byte string.
pub fn empty_digest() -> (d: Digest)
    ensures
        d@ == empty_digest_view(),
{
    let nothing: [u8; 0] = [];
    let d = Digest::of_bytes(nothing.as_slice());
    assert(nothing@ =~= Seq::<u8>::empty());
    d
}

} // verus!

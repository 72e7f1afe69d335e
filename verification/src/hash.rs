//! Hashes and commitments: the 32-byte field-element values stored in the
//! tree, together with the domain-separated leaf and node hash functions.

use vstd::prelude::*;

verus! {

/// An opaque 32-byte commitment, stored in little-endian field representation.
///
/// The cryptographic meaning of a commitment is external to the tree: the tree
/// only hashes it into a leaf and reports it back from witnesses.
#[derive(Clone, Copy, Debug, PartialEq, Eq)]
pub struct Commitment(pub [u8; 32]);

impl View for Commitment {
    type V = Seq<u8>;

    open spec fn view(&self) -> Seq<u8> {
        self.0@
    }
}

/// The hash of a leaf or internal node, in 32-byte little-endian field
/// representation.
#[derive(Clone, Copy, Debug, PartialEq, Eq)]
pub struct Digest([u8; 32]);

impl View for Digest {
    type V = Seq<u8>;

    closed spec fn view(&self) -> Seq<u8> {
        self.0@
    }
}

/// The byte representation of the zero field element, used as padding for the
/// not-yet-filled children of nodes on the frontier.
pub open spec fn zero_hash() -> Seq<u8> {
    Seq::new(32, |i: int| 0u8)
}

/// The byte representation of the one field element, used as padding for the
/// never-filled children of sealed (complete) nodes.
pub open spec fn one_hash() -> Seq<u8> {
    Seq::new(32, |i: int| if i == 0 { 1u8 } else { 0u8 })
}

/// The hash of a leaf holding the given commitment bytes.
///
/// The value is fixed by the commitment alone; nothing further is assumed
/// about it.
pub uninterp spec fn leaf_hash_of(commitment: Seq<u8>) -> Seq<u8>;

/// The hash of an internal node at the given height from the hashes of its
/// four children, in child order.
///
/// The value is fixed by the height and the four child hashes alone; nothing
/// further is assumed about it.
pub uninterp spec fn node_hash_of(
    height: int,
    a: Seq<u8>,
    b: Seq<u8>,
    c: Seq<u8>,
    d: Seq<u8>,
) -> Seq<u8>;

impl Digest {
    /// Hash a commitment into the leaf digest that represents it in the tree.
    ///
    /// Relies on poseidon377::hash_1 over decaf377's field Fq, with the
    /// domain separator derived by reducing BLAKE2b("penumbra.tct")
    /// (blake2b_simd::blake2b, then Fq::from_le_bytes_mod_order): the result
    /// is a function of the commitment bytes alone.
    #[verifier::external_body]
    pub fn of(item: &Commitment) -> (h: Digest)
        ensures
            h@ == leaf_hash_of(item@),
    {
        let sep = decaf377::Fq::from_le_bytes_mod_order(
            blake2b_simd::blake2b(b"penumbra.tct").as_bytes(),
        );
        let value = decaf377::Fq::from_le_bytes_mod_order(&item.0);
        Digest(poseidon377::hash_1(&sep, value).to_bytes())
    }

    /// Hash four child digests into the digest of their parent node at the
    /// given height.
    ///
    /// Relies on poseidon377::hash_4 over decaf377's field Fq, with the
    /// domain separator derived by reducing BLAKE2b("penumbra.tct") and
    /// adding the height to it in the field: the result is a function of the
    /// height and the four child hashes alone.
    #[verifier::external_body]
    pub fn node(height: u8, a: &Digest, b: &Digest, c: &Digest, d: &Digest) -> (h: Digest)
        ensures
            h@ == node_hash_of(height as int, a@, b@, c@, d@),
    {
        let base = decaf377::Fq::from_le_bytes_mod_order(
            blake2b_simd::blake2b(b"penumbra.tct").as_bytes(),
        );
        let sep = base + decaf377::Fq::from_le_bytes_mod_order(&height.to_le_bytes());
        let value = (
            decaf377::Fq::from_le_bytes_mod_order(&a.0),
            decaf377::Fq::from_le_bytes_mod_order(&b.0),
            decaf377::Fq::from_le_bytes_mod_order(&c.0),
            decaf377::Fq::from_le_bytes_mod_order(&d.0),
        );
        Digest(poseidon377::hash_4(&sep, value).to_bytes())
    }

    /// Wrap an arbitrary 32-byte value as a hash, for values read back from
    /// storage.
    pub fn from_bytes(bytes: [u8; 32]) -> (h: Digest)
        ensures
            h@ == bytes@,
    {
        Digest(bytes)
    }

    /// The bytes of this hash.
    pub fn to_bytes(&self) -> (bytes: [u8; 32])
        ensures
            bytes@ == self@,
    {
        self.0
    }

    /// The zero hash: padding for the missing children of frontier nodes.
    pub fn zero() -> (h: Digest)
        ensures
            h@ == zero_hash(),
    {
        let bytes = [0u8; 32];
        proof {
            assert(bytes@ =~= zero_hash());
        }
        Digest(bytes)
    }

    /// The one hash: padding for the missing children of complete nodes.
    pub fn one() -> (h: Digest)
        ensures
            h@ == one_hash(),
    {
        let mut bytes = [0u8; 32];
        bytes[0] = 1u8;
        proof {
            assert(bytes@ =~= one_hash());
        }
        Digest(bytes)
    }

    /// Whether this hash is the zero padding value.
    pub fn is_zero(&self) -> (r: bool)
        ensures
            r <==> self@ == zero_hash(),
    {
        let zero = Digest::zero();
        bytes32_eq(&self.0, &zero.0)
    }

    /// Whether this hash is the one padding value.
    pub fn is_one(&self) -> (r: bool)
        ensures
            r <==> self@ == one_hash(),
    {
        let one = Digest::one();
        bytes32_eq(&self.0, &one.0)
    }
}

/// Compare two 32-byte values.
pub fn bytes32_eq(a: &[u8; 32], b: &[u8; 32]) -> (r: bool)
    ensures
        r <==> a@ == b@,
{
    let mut i: usize = 0;
    while i < 32
        invariant
            i <= 32,
            forall|j: int| 0 <= j < i ==> a@[j] == b@[j],
        decreases 32 - i,
    {
        if a[i] != b[i] {
            return false;
        }
        i = i + 1;
    }
    proof {
        assert(a@ =~= b@);
    }
    true
}

/// A version counter recording when some part of the tree was forgotten.
///
/// The tree bumps its counter on every successful forget, and stamps the
/// pruned location with the new value; incremental serialization compares
/// stamps against the last version already reflected in storage.
#[derive(Clone, Copy, Debug, PartialEq, Eq, PartialOrd, Ord, Hash)]
pub struct Forgotten(pub u64);

impl Forgotten {
    /// The initial version, before anything has been forgotten.
    pub fn initial() -> (f: Forgotten)
        ensures
            f.0 == 0,
    {
        Forgotten(0)
    }

    /// Get the next forgotten-version after this one.
    pub fn next(&self) -> (f: Forgotten)
        requires
            self.0 < u64::MAX,
        ensures
            f.0 == self.0 + 1,
    {
        Forgotten(self.0 + 1)
    }
}

} // verus!

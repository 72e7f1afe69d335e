use tct::Commitment;
use tct::Digest;
use tct::Forgotten;
use tct::bytes32_eq;

fn c(k: u64) -> Commitment {
    let mut bytes = [0u8; 32];
    bytes[..8].copy_from_slice(&k.to_le_bytes());
    Commitment(bytes)
}

#[test]
fn leaf_hash_actually_hashes() {
    // The leaf hash of a commitment is a real hash, not the commitment
    // handed back.
    let digest = Digest::of(&c(1));
    assert_ne!(digest.to_bytes(), c(1).0);
    // Hashing is deterministic.
    assert_eq!(Digest::of(&c(1)), Digest::of(&c(1)));
    assert_ne!(Digest::of(&c(1)), Digest::of(&c(2)));
}

#[test]
fn node_hash_actually_hashes() {
    let one = Digest::one();
    let zero = Digest::zero();
    let node = Digest::node(24, &one, &one, &one, &one);
    // The node hash is not any of its inputs.
    assert_ne!(node, one);
    assert_ne!(node, zero);
    // The height separates domains.
    assert_ne!(Digest::node(1, &one, &one, &one, &one), Digest::node(2, &one, &one, &one, &one));
    // The child order matters.
    let a = Digest::of(&c(1));
    assert_ne!(
        Digest::node(1, &a, &zero, &zero, &zero),
        Digest::node(1, &zero, &a, &zero, &zero),
    );
}

#[test]
fn digest_byte_round_trip() {
    let digest = Digest::of(&c(9));
    let bytes = digest.to_bytes();
    assert_eq!(Digest::from_bytes(bytes), digest);
    assert_eq!(Digest::zero().to_bytes(), [0u8; 32]);
    let mut one_bytes = [0u8; 32];
    one_bytes[0] = 1;
    assert_eq!(Digest::one().to_bytes(), one_bytes);
}

#[test]
fn byte_comparison() {
    assert!(bytes32_eq(&c(5).0, &c(5).0));
    assert!(!bytes32_eq(&c(5).0, &c(6).0));
}

#[test]
fn forgotten_version_counts_up() {
    let initial = Forgotten::initial();
    assert_eq!(initial.0, 0);
    let next = initial.next();
    assert_eq!(next.0, 1);
    assert_eq!(next.next().0, 2);
}

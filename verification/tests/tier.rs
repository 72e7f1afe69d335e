use tct::Digest;
use tct::Item;
use tct::Tier;

#[test]
fn position_advances_by_one() {
    let mut tier = Tier::new(Item::Hashed(Digest::zero()));
    for expected_position in 1..=(u16::MAX as u64) {
        assert_eq!(tier.position(), Some(expected_position));
        tier.insert(Item::Hashed(Digest::zero())).unwrap();
    }
    assert_eq!(tier.position(), None);
}

#[test]
fn tier_accepts_exactly_its_capacity() {
    let mut tier = Tier::new(Item::Hashed(Digest::zero()));
    for _ in 1..65536u64 {
        assert!(tier.insert(Item::Hashed(Digest::one())).is_ok());
    }
    // The tier now holds 65536 items: the next insertion hands the item
    // back without sealing anything.
    assert!(tier.insert(Item::Hashed(Digest::zero())).is_err());
    assert!(tier.is_full());
    assert!(!tier.is_finalized());
}

#[test]
fn tier_seal_is_explicit_and_idempotent() {
    let mut tier = Tier::new(Item::Hashed(Digest::zero()));
    assert!(!tier.is_finalized());
    assert!(!tier.is_full());
    let already = tier.finalize();
    assert!(!already);
    assert!(tier.is_finalized());
    assert!(tier.is_full());
    assert!(tier.insert(Item::Hashed(Digest::one())).is_err());
    let already = tier.finalize();
    assert!(already);
}

use tct::Commitment;
use tct::Digest;
use tct::Forgotten;
use tct::InMemory;
use tct::Options;
use tct::ReadError;
use tct::Serializer;
use tct::Tree;
use tct::Witness;
use tct::from_reader;
use tct::path_root;
use tct::write_to_store;

fn c(k: u64) -> Commitment {
    let mut bytes = [0u8; 32];
    bytes[..8].copy_from_slice(&k.to_le_bytes());
    Commitment(bytes)
}

fn keep_options() -> Options {
    let mut options = Options::default();
    options.keep_internal();
    options
}

#[test]
fn round_trip_two_commitments() {
    let mut tree = Tree::new();
    tree.insert(Witness::Keep, c(1)).unwrap();
    tree.insert(Witness::Keep, c(2)).unwrap();
    tree.end_block().unwrap();

    let mut store = InMemory::new();
    write_to_store(keep_options(), Forgotten(0), &mut store, &tree);

    let rebuilt = from_reader(&store).unwrap();
    assert_eq!(rebuilt.position(), tree.position());
    assert_eq!(rebuilt.root(), tree.root());

    for k in 1..=2u64 {
        let original = tree.witness(&c(k)).unwrap();
        let recovered = rebuilt.witness(&c(k)).unwrap();
        assert_eq!(original.position, recovered.position);
        assert_eq!(original.auth_path, recovered.auth_path);
        let folded = path_root(&recovered.auth_path, recovered.position, &Digest::of(&c(k)));
        assert_eq!(folded, rebuilt.root());
    }
}

#[test]
fn round_trip_without_internal_hashes() {
    let mut tree = Tree::new();
    tree.insert(Witness::Keep, c(1)).unwrap();
    tree.insert(Witness::Forget, c(2)).unwrap();
    tree.insert(Witness::Keep, c(3)).unwrap();
    tree.end_block().unwrap();
    tree.insert(Witness::Keep, c(4)).unwrap();

    let mut options = Options::default();
    options.omit_internal();
    let mut store = InMemory::new();
    write_to_store(options, Forgotten(0), &mut store, &tree);

    let rebuilt = from_reader(&store).unwrap();
    assert_eq!(rebuilt.root(), tree.root());
    assert!(rebuilt.witness(&c(2)).is_none());
    let original = tree.witness(&c(3)).unwrap();
    let recovered = rebuilt.witness(&c(3)).unwrap();
    assert_eq!(original.position, recovered.position);
    assert_eq!(original.auth_path, recovered.auth_path);
}

#[test]
fn incremental_round_trip_matches_live_tree() {
    let mut tree = Tree::new();
    tree.insert(Witness::Keep, c(1)).unwrap();
    tree.insert(Witness::Keep, c(2)).unwrap();

    // First pass: everything is new.
    let mut store = InMemory::new();
    write_to_store(keep_options(), Forgotten(0), &mut store, &tree);
    let pass_one_forgotten = tree.forgotten_version();

    // Afterwards: more insertions, a seal, and a forget below the stored
    // position.
    tree.end_block().unwrap();
    tree.insert(Witness::Keep, c(3)).unwrap();
    assert!(tree.forget(&c(1)));

    // Second pass writes only the changes.
    write_to_store(keep_options(), pass_one_forgotten, &mut store, &tree);

    let rebuilt = from_reader(&store).unwrap();
    assert_eq!(rebuilt.position(), tree.position());
    assert_eq!(rebuilt.root(), tree.root());
    assert!(rebuilt.witness(&c(1)).is_none());
    for k in 2..=3u64 {
        let original = tree.witness(&c(k)).unwrap();
        let recovered = rebuilt.witness(&c(k)).unwrap();
        assert_eq!(original.position, recovered.position);
        assert_eq!(original.auth_path, recovered.auth_path);
    }
}

#[test]
fn serializer_streams_respect_the_minimum_position() {
    let mut tree = Tree::new();
    tree.insert(Witness::Keep, c(1)).unwrap();
    tree.insert(Witness::Forget, c(2)).unwrap();

    let mut serializer = Serializer::new();
    // With no minimum position, nothing new is emitted.
    assert!(serializer.hashes_iter(&tree).is_empty());
    assert!(serializer.commitments_iter(&tree).is_empty());

    // From the start of the tree, both leaves appear: the kept one as a
    // commitment row, the forgotten one as an essential hash row.
    serializer.position(Some(0));
    serializer.last_forgotten(Forgotten(0));
    let commitments = serializer.commitments_iter(&tree);
    assert_eq!(commitments.len(), 1);
    assert_eq!(commitments[0].0, 0);
    assert_eq!(commitments[0].1, c(1));
    let hashes = serializer.hashes_iter(&tree);
    assert_eq!(hashes.len(), 1);
    assert_eq!(hashes[0].0, 1);
    assert_eq!(hashes[0].1, 0);
    assert_eq!(hashes[0].2, Digest::of(&c(2)));

    // From past the leaves, nothing is emitted.
    serializer.position(Some(2));
    assert!(serializer.hashes_iter(&tree).is_empty());
    assert!(serializer.commitments_iter(&tree).is_empty());
}

#[test]
fn forgotten_stream_reports_newly_forgotten_spans() {
    let mut tree = Tree::new();
    tree.insert(Witness::Keep, c(1)).unwrap();
    tree.insert(Witness::Keep, c(2)).unwrap();
    let mut serializer = Serializer::new();
    serializer.position(Some(2));
    serializer.last_forgotten(Forgotten(0));
    assert!(serializer.forgotten_iter(&tree).is_empty());

    assert!(tree.forget(&c(1)));
    let rows = serializer.forgotten_iter(&tree);
    assert_eq!(rows.len(), 1);
    assert_eq!(rows[0].0, 0);
    assert_eq!(rows[0].1, 0);
    assert_eq!(rows[0].2, Digest::of(&c(1)));

    // A pass that already reflects the forget reports nothing.
    serializer.last_forgotten(tree.forgotten_version());
    assert!(serializer.forgotten_iter(&tree).is_empty());
}

#[test]
fn keeping_internal_hashes_adds_rows_but_preserves_the_rebuild() {
    let mut tree = Tree::new();
    tree.insert(Witness::Keep, c(1)).unwrap();
    tree.end_block().unwrap();

    let mut keep_serializer = Serializer::new();
    keep_serializer.position(Some(0));
    keep_serializer.keep_internal();
    let mut omit_serializer = Serializer::new();
    omit_serializer.position(Some(0));
    omit_serializer.omit_internal();
    let kept = keep_serializer.hashes_iter(&tree);
    let omitted = omit_serializer.hashes_iter(&tree);
    assert!(kept.len() > omitted.len());

    let mut store = InMemory::new();
    write_to_store(keep_options(), Forgotten(0), &mut store, &tree);
    let rebuilt = from_reader(&store).unwrap();
    assert_eq!(rebuilt.root(), tree.root());
}

#[test]
fn corrupt_stores_are_rejected() {
    // A commitment row at or past the stored position cannot stand.
    let mut store = InMemory::new();
    store.add_commitment(0, c(1));
    store.set_position(Some(0));
    assert!(matches!(from_reader(&store), Err(ReadError::Corrupt)));

    // The same commitment twice cannot stand.
    let mut store = InMemory::new();
    store.add_commitment(0, c(1));
    store.add_commitment(1, c(1));
    store.set_position(Some(2));
    assert!(matches!(from_reader(&store), Err(ReadError::Corrupt)));

    // The same position twice cannot stand.
    let mut store = InMemory::new();
    store.add_commitment(0, c(1));
    store.add_commitment(0, c(2));
    store.set_position(Some(2));
    assert!(matches!(from_reader(&store), Err(ReadError::Corrupt)));

    // A misaligned hash row cannot stand.
    let mut store = InMemory::new();
    store.add_hash(1, 1, Digest::one());
    store.set_position(Some(65536));
    assert!(matches!(from_reader(&store), Err(ReadError::Corrupt)));

    // An over-tall hash row cannot stand.
    let mut store = InMemory::new();
    store.add_hash(0, 25, Digest::one());
    store.set_position(Some(65536));
    assert!(matches!(from_reader(&store), Err(ReadError::Corrupt)));
}

#[test]
fn rebuild_does_not_depend_on_row_order() {
    let mut tree = Tree::new();
    tree.insert(Witness::Keep, c(1)).unwrap();
    tree.insert(Witness::Forget, c(2)).unwrap();
    tree.end_block().unwrap();
    tree.insert(Witness::Keep, c(3)).unwrap();

    let mut serializer = Serializer::new();
    serializer.position(Some(0));
    serializer.keep_internal();
    let hashes = serializer.hashes_iter(&tree);
    let commitments = serializer.commitments_iter(&tree);

    let mut forward = InMemory::new();
    for row in &hashes {
        forward.add_hash(row.0, row.1, row.2);
    }
    for row in &commitments {
        forward.add_commitment(row.0, row.1);
    }
    forward.set_position(tree.position());

    let mut backward = InMemory::new();
    for row in hashes.iter().rev() {
        backward.add_hash(row.0, row.1, row.2);
    }
    for row in commitments.iter().rev() {
        backward.add_commitment(row.0, row.1);
    }
    backward.set_position(tree.position());

    let from_forward = from_reader(&forward).unwrap();
    let from_backward = from_reader(&backward).unwrap();
    assert_eq!(from_forward.root(), tree.root());
    assert_eq!(from_backward.root(), tree.root());
}

#[test]
fn rebuild_accepts_wide_pruned_spans() {
    // A stored block-wide hash stands in for a whole pruned block; the
    // rebuilt tree hashes it in place without knowing what it contained.
    let block_hash = Digest::of(&c(42));
    let mut store = InMemory::new();
    store.add_hash(0, 8, block_hash);
    store.add_commitment(65536, c(1));
    store.set_position(Some(65537));
    let rebuilt = from_reader(&store).unwrap();
    assert_eq!(rebuilt.position(), Some(65537));
    let proof = rebuilt.witness(&c(1)).unwrap();
    assert_eq!(proof.position, 65536);
    // The witness path at the block level carries the stored block hash.
    let step = proof.auth_path[15];
    assert_eq!(step.first, block_hash);
    let folded = path_root(&proof.auth_path, proof.position, &Digest::of(&c(1)));
    assert_eq!(folded, rebuilt.root());
}

#[test]
fn incomplete_stores_are_rejected() {
    // A store with position 2 and a commitment at position 1 leaves
    // position 0 with no commitment, no hash, and no seal that could have
    // skipped it: no insertion history produces it.
    let mut store = InMemory::new();
    store.add_commitment(1, c(1));
    store.set_position(Some(2));
    assert!(matches!(from_reader(&store), Err(ReadError::Corrupt)));

    // A gap that ends on a block boundary is what sealing produces.
    let mut store = InMemory::new();
    store.add_commitment(0, c(1));
    store.add_commitment(65536, c(2));
    store.set_position(Some(65537));
    let rebuilt = from_reader(&store).unwrap();
    assert_eq!(rebuilt.position(), Some(65537));

    // A mid-block gap below the stored position cannot stand even at the
    // very end of the store.
    let mut store = InMemory::new();
    store.add_commitment(0, c(1));
    store.set_position(Some(5));
    assert!(matches!(from_reader(&store), Err(ReadError::Corrupt)));

    // The same span recorded twice cannot stand.
    let mut store = InMemory::new();
    store.add_hash(0, 0, Digest::one());
    store.add_hash(0, 0, Digest::one());
    store.set_position(Some(65536));
    assert!(matches!(from_reader(&store), Err(ReadError::Corrupt)));
}

#[test]
fn serializer_defaults() {
    let serializer = Serializer::new();
    assert!(serializer.minimum_position.is_none());
    assert_eq!(serializer.last_forgotten, Forgotten(0));
    assert!(serializer.options.keep);
    let options = Options::default();
    assert!(options.keep);
}

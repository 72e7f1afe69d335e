use tct::Commitment;
use tct::Digest;
use tct::InsertError;
use tct::Tree;
use tct::Witness;
use tct::path_root;
use tct::BLOCK_SPAN;
use tct::EPOCH_SPAN;

fn c(k: u64) -> Commitment {
    let mut bytes = [0u8; 32];
    bytes[..8].copy_from_slice(&k.to_le_bytes());
    Commitment(bytes)
}

#[test]
fn empty_tree_position_and_root() {
    let tree = Tree::new();
    assert_eq!(tree.position(), Some(0));
    let one = Digest::one();
    let expected = Digest::node(24, &one, &one, &one, &one);
    assert_eq!(tree.root(), expected);
}

#[test]
fn single_insert_witness_is_all_zero_padded() {
    let mut tree = Tree::new();
    tree.insert(Witness::Keep, c(1)).unwrap();
    assert_eq!(tree.position(), Some(1));
    let proof = tree.witness(&c(1)).unwrap();
    assert_eq!(proof.position, 0);
    assert_eq!(proof.auth_path.len(), 24);
    let zero = Digest::zero();
    for step in &proof.auth_path {
        assert_eq!(step.first, zero);
        assert_eq!(step.second, zero);
        assert_eq!(step.third, zero);
    }
    let folded = path_root(&proof.auth_path, proof.position, &Digest::of(&c(1)));
    assert_eq!(folded, tree.root());
}

#[test]
fn five_inserts_witness_complete_leaf_siblings() {
    let mut tree = Tree::new();
    for k in 1..=5u64 {
        tree.insert(Witness::Keep, c(k)).unwrap();
        assert_eq!(tree.position(), Some(k));
    }
    let proof = tree.witness(&c(4)).unwrap();
    assert_eq!(proof.position, 3);
    // The innermost step's siblings are the leaf hashes of the first three
    // commitments: their quad is sealed past, so real hashes stand there.
    let innermost = proof.auth_path[23];
    assert_eq!(innermost.first, Digest::of(&c(1)));
    assert_eq!(innermost.second, Digest::of(&c(2)));
    assert_eq!(innermost.third, Digest::of(&c(3)));
    let folded = path_root(&proof.auth_path, proof.position, &Digest::of(&c(4)));
    assert_eq!(folded, tree.root());
}

#[test]
fn end_block_advances_to_block_boundary() {
    let mut tree = Tree::new();
    tree.insert(Witness::Keep, c(1)).unwrap();
    assert_eq!(tree.position(), Some(1));
    tree.end_block().unwrap();
    assert_eq!(tree.position(), Some(BLOCK_SPAN));
    tree.insert(Witness::Keep, c(2)).unwrap();
    assert_eq!(tree.position(), Some(BLOCK_SPAN + 1));

    // The first commitment is still witnessed; its in-block siblings are
    // `one`, the padding of the sealed block's absent children.
    let proof = tree.witness(&c(1)).unwrap();
    assert_eq!(proof.position, 0);
    let one = Digest::one();
    for h in 1..=8u8 {
        let step = proof.auth_path[(24 - h) as usize];
        assert_eq!(step.first, one);
        assert_eq!(step.second, one);
        assert_eq!(step.third, one);
    }
    let folded = path_root(&proof.auth_path, proof.position, &Digest::of(&c(1)));
    assert_eq!(folded, tree.root());
}

#[test]
fn empty_block_and_epoch_seals_advance_by_full_spans() {
    let mut tree = Tree::new();
    tree.end_block().unwrap();
    assert_eq!(tree.position(), Some(BLOCK_SPAN));
    tree.end_block().unwrap();
    assert_eq!(tree.position(), Some(2 * BLOCK_SPAN));
    tree.end_epoch().unwrap();
    assert_eq!(tree.position(), Some(EPOCH_SPAN));
    tree.end_epoch().unwrap();
    assert_eq!(tree.position(), Some(2 * EPOCH_SPAN));
}

#[test]
fn forget_inserted_commitment() {
    let mut tree = Tree::new();
    tree.insert(Witness::Keep, c(1)).unwrap();
    tree.insert(Witness::Forget, c(2)).unwrap();
    tree.insert(Witness::Keep, c(3)).unwrap();

    // A commitment inserted with `Forget` is never witnessed.
    assert!(tree.witness(&c(2)).is_none());
    let p1 = tree.witness(&c(1)).unwrap();
    let p3 = tree.witness(&c(3)).unwrap();
    assert_eq!(p1.position, 0);
    assert_eq!(p3.position, 2);
    assert_eq!(path_root(&p1.auth_path, p1.position, &Digest::of(&c(1))), tree.root());
    assert_eq!(path_root(&p3.auth_path, p3.position, &Digest::of(&c(3))), tree.root());

    // The root matches a tree with all three kept and the second then
    // forgotten.
    let mut other = Tree::new();
    other.insert(Witness::Keep, c(1)).unwrap();
    other.insert(Witness::Keep, c(2)).unwrap();
    other.insert(Witness::Keep, c(3)).unwrap();
    assert!(other.forget(&c(2)));
    assert_eq!(tree.root(), other.root());
}

#[test]
fn forget_leaves_root_unchanged() {
    let mut tree = Tree::new();
    tree.insert(Witness::Keep, c(7)).unwrap();
    tree.insert(Witness::Keep, c(8)).unwrap();
    let before = tree.root();
    assert!(tree.forget(&c(7)));
    assert_eq!(tree.root(), before);
    assert!(tree.witness(&c(7)).is_none());
    assert!(tree.witness(&c(8)).is_some());
    // Forgetting again does nothing.
    assert!(!tree.forget(&c(7)));
    assert_eq!(tree.root(), before);
}

#[test]
fn duplicate_insert_is_rejected_and_tree_unchanged() {
    let mut tree = Tree::new();
    tree.insert(Witness::Keep, c(1)).unwrap();
    let root = tree.root();
    let result = tree.insert(Witness::Keep, c(1));
    assert_eq!(result, Err(InsertError::DuplicateCommitment));
    assert_eq!(tree.position(), Some(1));
    assert_eq!(tree.root(), root);
    // A forgotten commitment may be inserted again: the index truly lost it.
    assert!(tree.forget(&c(1)));
    assert!(tree.insert(Witness::Keep, c(1)).is_ok());
}

#[test]
fn full_tree_rejects_everything() {
    let mut tree = Tree::new();
    for _ in 0..65536u64 {
        tree.end_epoch().unwrap();
    }
    assert_eq!(tree.position(), None);
    assert_eq!(tree.insert(Witness::Keep, c(1)), Err(InsertError::Full));
    assert_eq!(tree.end_block(), Err(InsertError::Full));
    assert_eq!(tree.end_epoch(), Err(InsertError::Full));
}

#[test]
fn position_is_monotonic() {
    let mut tree = Tree::new();
    let mut last: u64 = tree.position().unwrap();
    for k in 1..=10u64 {
        tree.insert(Witness::Keep, c(k)).unwrap();
        let now = tree.position().unwrap();
        assert!(now > last);
        assert_eq!(now, last + 1);
        last = now;
    }
    tree.end_block().unwrap();
    let now = tree.position().unwrap();
    assert!(now > last);
    last = now;
    tree.end_epoch().unwrap();
    let now = tree.position().unwrap();
    assert!(now > last);
}

#[test]
fn witnesses_fold_to_the_root_across_tiers() {
    let mut tree = Tree::new();
    let mut kept: Vec<u64> = Vec::new();
    let mut k: u64 = 1;
    for epoch in 0..2 {
        for block in 0..2 {
            for _ in 0..3 {
                tree.insert(Witness::Keep, c(k)).unwrap();
                kept.push(k);
                k += 1;
            }
            if block == 0 {
                tree.end_block().unwrap();
            }
        }
        if epoch == 0 {
            tree.end_epoch().unwrap();
        }
    }
    tree.forget(&c(2));
    kept.retain(|&x| x != 2);
    let root = tree.root();
    for &k in &kept {
        let proof = tree.witness(&c(k)).unwrap();
        assert_eq!(proof.auth_path.len(), 24);
        let folded = path_root(&proof.auth_path, proof.position, &Digest::of(&c(k)));
        assert_eq!(folded, root);
    }
    assert!(tree.witness(&c(2)).is_none());
}

#[test]
fn sealed_subtree_root_is_stable_under_unrelated_inserts() {
    let mut tree = Tree::new();
    tree.insert(Witness::Keep, c(1)).unwrap();
    tree.end_block().unwrap();
    let p1 = tree.witness(&c(1)).unwrap();
    // The sealed block's in-block path never changes again.
    tree.insert(Witness::Keep, c(2)).unwrap();
    tree.insert(Witness::Keep, c(3)).unwrap();
    let p1_after = tree.witness(&c(1)).unwrap();
    for h in 1..=8u8 {
        assert_eq!(p1.auth_path[(24 - h) as usize], p1_after.auth_path[(24 - h) as usize]);
    }
}

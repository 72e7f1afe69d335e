//! Authentication paths.
//!
//! A witnessed commitment is related to the root by a path of 24 steps, one
//! per level of the tree, nearest the root first.  Each step carries the
//! hashes of the three siblings of the child the path descends into, in
//! child order.  Folding the path upward from the leaf hash reproduces the
//! root.

use vstd::prelude::*;
use crate::hash::Digest;
use crate::hash::node_hash_of;
use crate::position::digit;
use crate::position::pow4_u64;
use crate::position::TREE_SPAN;

verus! {

/// One level of an authentication path: the hashes of the three siblings of
/// the child the path continues into, in child order.
#[derive(Clone, Copy, Debug, PartialEq, Eq)]
pub struct PathStep {
    /// The first of the three siblings, in child order.
    pub first: Digest,
    /// The second of the three siblings, in child order.
    pub second: Digest,
    /// The third of the three siblings, in child order.
    pub third: Digest,
}

/// A successful witness: the position of the commitment, and the
/// authentication path of 24 steps from the root down to its leaf.
pub struct WitnessProof {
    /// The position the commitment was inserted at.
    pub position: u64,
    /// The 24 path steps, nearest the root first.
    pub auth_path: Vec<PathStep>,
}

/// The hash of a node at height `h` whose child number `d` has hash `below`,
/// with the given step supplying the three siblings.
pub open spec fn step_hash(step: PathStep, d: int, h: int, below: Seq<u8>) -> Seq<u8> {
    if d == 0 {
        node_hash_of(h, below, step.first@, step.second@, step.third@)
    } else if d == 1 {
        node_hash_of(h, step.first@, below, step.second@, step.third@)
    } else if d == 2 {
        node_hash_of(h, step.first@, step.second@, below, step.third@)
    } else {
        node_hash_of(h, step.first@, step.second@, step.third@, below)
    }
}

/// Fold a path toward position `pos` upward onto `leaf`, the first step
/// applying at height `h`, each later step one level lower.
pub open spec fn fold_at(path: Seq<PathStep>, pos: int, leaf: Seq<u8>, h: int) -> Seq<u8>
    decreases path.len(),
{
    if path.len() == 0 {
        leaf
    } else {
        step_hash(path[0], digit(pos, h), h, fold_at(path.skip(1), pos, leaf, h - 1))
    }
}

/// Fold a full path onto a leaf hash: the first step applies at the height
/// equal to the path's length, so a path of 24 steps folds up to the root.
pub open spec fn fold_path(path: Seq<PathStep>, pos: int, leaf: Seq<u8>) -> Seq<u8> {
    fold_at(path, pos, leaf, path.len() as int)
}

/// Appending a step to a path folds like pre-combining the leaf with that
/// step at the height just below the path.
pub proof fn lemma_fold_at_push(
    path: Seq<PathStep>,
    step: PathStep,
    pos: int,
    leaf: Seq<u8>,
    h: int,
)
    ensures
        fold_at(path.push(step), pos, leaf, h) == fold_at(
            path,
            pos,
            step_hash(step, digit(pos, h - path.len()), h - path.len(), leaf),
            h,
        ),
    decreases path.len(),
{
    if path.len() == 0 {
        assert(path.push(step)[0] == step);
        assert(path.push(step).skip(1) =~= Seq::<PathStep>::empty());
        assert(fold_at(path.push(step).skip(1), pos, leaf, h - 1) == leaf);
        assert(fold_at(path.push(step), pos, leaf, h) == step_hash(step, digit(pos, h), h, leaf));
    } else {
        assert(path.push(step)[0] == path[0]);
        assert(path.push(step).skip(1) =~= path.skip(1).push(step));
        lemma_fold_at_push(path.skip(1), step, pos, leaf, h - 1);
        let x = step_hash(step, digit(pos, h - path.len()), h - path.len(), leaf);
        assert(fold_at(path.push(step), pos, leaf, h) == step_hash(
            path[0],
            digit(pos, h),
            h,
            fold_at(path.skip(1).push(step), pos, leaf, h - 1),
        ));
        assert(fold_at(path.skip(1).push(step), pos, leaf, h - 1) == fold_at(
            path.skip(1),
            pos,
            step_hash(step, digit(pos, h - 1 - path.skip(1).len()), h - 1 - path.skip(1).len(), leaf),
            h - 1,
        ));
        assert(h - 1 - path.skip(1).len() == h - path.len());
        assert(fold_at(path, pos, x, h) == step_hash(
            path[0],
            digit(pos, h),
            h,
            fold_at(path.skip(1), pos, x, h - 1),
        ));
    }
}

/// Fold an authentication path toward `position` upward onto the given leaf
/// hash, producing the root it implies.
pub fn path_root(path: &Vec<PathStep>, position: u64, leaf: &Digest) -> (r: Digest)
    requires
        path@.len() <= 24,
        position < TREE_SPAN,
    ensures
        r@ == fold_path(path@, position as int, leaf@),
{
    let n = path.len();
    let mut below = *leaf;
    let mut i = n;
    while i > 0
        invariant
            i <= n == path@.len() <= 24,
            position < TREE_SPAN,
            below@ == fold_at(path@.skip(i as int), position as int, leaf@, (n - i) as int),
        decreases i,
    {
        i = i - 1;
        let h = (n - i) as u8;
        proof {
            crate::position::lemma_pow4_pos(h as int - 1);
        }
        let q = pow4_u64(h - 1);
        let d = (position / q) % 4;
        let s = &path[i];
        let prev = below;
        below =
            if d == 0 {
                Digest::node(h, &prev, &s.first, &s.second, &s.third)
            } else if d == 1 {
                Digest::node(h, &s.first, &prev, &s.second, &s.third)
            } else if d == 2 {
                Digest::node(h, &s.first, &s.second, &prev, &s.third)
            } else {
                Digest::node(h, &s.first, &s.second, &s.third, &prev)
            };
        proof {
            crate::position::lemma_pow4_pos(h as int - 1);
            let tail = path@.skip(i as int);
            assert(tail[0] == path@[i as int]);
            assert(tail.skip(1) =~= path@.skip(i as int + 1));
            assert(d == digit(position as int, h as int));
        }
    }
    proof {
        assert(path@.skip(0) =~= path@);
    }
    below
}

} // verus!

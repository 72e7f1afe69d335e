//! The tiered commitment tree itself.
//!
//! The tree appends commitments at strictly increasing positions, seals
//! blocks and epochs by rounding the next position up to the next tier
//! boundary, witnesses commitments with authentication paths, and forgets
//! them by collapsing their leaves into bare hashes.

use vstd::prelude::*;
use crate::hash::Commitment;
use crate::hash::Digest;
use crate::hash::Forgotten;
use crate::hash::bytes32_eq;
use crate::hash::leaf_hash_of;
use crate::path::PathStep;
use crate::path::WitnessProof;
use crate::path::fold_at;
use crate::path::fold_path;
use crate::path::step_hash;
use crate::path::lemma_fold_at_push;
use crate::segment::Segment;
use crate::segment::segs_wf;
use crate::segment::gaps_sealed;
use crate::segment::covered_end;
use crate::segment::prev_covered_end;
use crate::segment::region_ok;
use crate::segment::region_exact;
use crate::segment::region_hash;
use crate::segment::children_hash;
use crate::segment::first_ge;
use crate::segment::first_ge_index;
use crate::segment::lemma_first_ge_char;
use crate::segment::lemma_mod_sum_zero;
use crate::segment::lemma_pow4_align;
use crate::segment::region_digest;
use crate::segment::lemma_children_ok;
use crate::segment::lemma_wf_pos_increasing;
use crate::segment::lemma_first_ge_props;
use crate::position::pow4;
use crate::position::digit;
use crate::position::pow4_u64;
use crate::position::lemma_pow4_pos;
use crate::position::lemma_span_values;
use crate::position::BLOCK_SPAN;
use crate::position::EPOCH_SPAN;
use crate::position::TREE_SPAN;
use vstd::arithmetic::div_mod::lemma_fundamental_div_mod;
use vstd::arithmetic::div_mod::lemma_mod_multiples_basic;
use vstd::arithmetic::div_mod::lemma_small_mod;

verus! {

/// Whether an inserted commitment is kept for later witnessing, or forgotten
/// immediately so that only its hash enters the tree.
#[derive(Clone, Copy, Debug, PartialEq, Eq)]
pub enum Witness {
    /// Keep the commitment: it can be witnessed until it is forgotten.
    Keep,
    /// Insert only the hash of the commitment.
    Forget,
}

/// Why an insertion or a seal was refused.
#[derive(Clone, Copy, Debug, PartialEq, Eq)]
pub enum InsertError {
    /// The commitment is already witnessed in the tree.
    DuplicateCommitment,
    /// The tree has no positions left.
    Full,
}

/// The hash of the whole tree: the root node at height 24.
///
/// The root is always a computed node — even a tree with no contents hashes
/// the padding of its four children — except when the whole position space
/// has been pruned down to a single stored hash.
pub open spec fn tree_root_hash(segs: Seq<Segment>, next: int) -> Seq<u8> {
    if region_exact(segs, 0, segs.len() as int, 0, 24) {
        segs[0].content_hash()
    } else {
        children_hash(segs, next, 0, segs.len() as int, 0, 24)
    }
}

/// The position just past a position's block.
pub open spec fn next_block_boundary(next: int) -> int {
    (next / (BLOCK_SPAN as int) + 1) * (BLOCK_SPAN as int)
}

/// The position just past a position's epoch.
pub open spec fn next_epoch_boundary(next: int) -> int {
    (next / (EPOCH_SPAN as int) + 1) * (EPOCH_SPAN as int)
}

/// The start of the span of the height-`h` node on the path to `pos`.
pub open spec fn level_base(pos: int, h: int) -> int {
    pos - (pos % pow4(h))
}

/// The hash of child number `j` of the height-`h` node on the path to
/// `pos`: the region hash of that quarter of the node's span.
pub open spec fn sibling_hash(segs: Seq<Segment>, next: int, pos: int, h: int, j: int) -> Seq<u8> {
    let b = level_base(pos, h) + j * pow4(h - 1);
    region_hash(
        segs,
        next,
        first_ge(segs, 0, segs.len() as int, b),
        first_ge(segs, 0, segs.len() as int, b + pow4(h - 1)),
        b,
        h - 1,
    )
}

/// Whether a path step carries, in child order, the hashes of the three
/// sibling quarters of the height-`h` node on the path to `pos`.
pub open spec fn step_matches_siblings(
    step: PathStep,
    segs: Seq<Segment>,
    next: int,
    pos: int,
    h: int,
) -> bool {
    let d = digit(pos, h);
    &&& step.first@ == sibling_hash(
        segs,
        next,
        pos,
        h,
        if d == 0 {
            1int
        } else {
            0int
        },
    )
    &&& step.second@ == sibling_hash(
        segs,
        next,
        pos,
        h,
        if d <= 1 {
            2int
        } else {
            1int
        },
    )
    &&& step.third@ == sibling_hash(
        segs,
        next,
        pos,
        h,
        if d <= 2 {
            3int
        } else {
            2int
        },
    )
}

/// The tiered commitment tree.
///
/// The tree is stored sparsely: the next insertion position, the segments
/// (witnessed leaves and pruned hashes) in increasing position order, and
/// the forgotten-version counter.  The well-formedness of a value is
/// [`Tree::wf`]; every operation requires and preserves it.
pub struct Tree {
    /// The next position an insertion would occupy; `TREE_SPAN` when full.
    pub next: u64,
    /// The stored contents, in increasing position order.
    pub segments: Vec<Segment>,
    /// How many forgets have been performed on this tree.
    pub forgotten: u64,
}

impl Tree {
    /// The tree's invariant: contents well-formed against the next position,
    /// the next position inside the tree, every gap explained by sealing,
    /// and no stamp ahead of the counter.
    pub open spec fn wf(&self) -> bool {
        &&& segs_wf(self.segments@, self.next as int)
        &&& self.next <= TREE_SPAN
        &&& gaps_sealed(self.segments@, self.next as int)
        &&& forall|i: int|
            0 <= i < self.segments@.len() ==> (#[trigger] self.segments@[i]).stamp_of()
                <= self.forgotten as int
    }

    /// The root hash of this tree.
    pub open spec fn root_of(&self) -> Seq<u8> {
        tree_root_hash(self.segments@, self.next as int)
    }

    /// Whether the given commitment bytes are witnessed in this tree.
    pub open spec fn contains_commitment(&self, c: Seq<u8>) -> bool {
        exists|i: int|
            0 <= i < self.segments@.len() && (#[trigger] self.segments@[i]).is_leaf()
                && self.segments@[i].leaf_commitment() == c
    }

    /// Whether the given commitment bytes are witnessed at position `p`.
    pub open spec fn commitment_at(&self, p: int, c: Seq<u8>) -> bool {
        exists|i: int|
            0 <= i < self.segments@.len() && (#[trigger] self.segments@[i]).is_leaf()
                && self.segments@[i].pos() == p && self.segments@[i].leaf_commitment() == c
    }

    /// An empty tree.
    pub fn new() -> (tree: Tree)
        ensures
            tree.wf(),
            tree.next == 0,
            tree.segments@.len() == 0,
            tree.forgotten == 0,
    {
        Tree { next: 0, segments: Vec::new(), forgotten: 0 }
    }

    /// The position the next insertion would occupy, or `None` if the tree
    /// is full.
    pub fn position(&self) -> (p: Option<u64>)
        requires
            self.wf(),
        ensures
            self.next < TREE_SPAN ==> p == Some(self.next),
            self.next == TREE_SPAN ==> p is None,
    {
        if self.next < TREE_SPAN {
            Some(self.next)
        } else {
            None
        }
    }

    /// The forgotten-version counter of this tree.
    pub fn forgotten_version(&self) -> (f: Forgotten)
        ensures
            f.0 == self.forgotten,
    {
        Forgotten(self.forgotten)
    }

    /// The root hash of the tree.
    ///
    /// The root is idempotent: it reads the tree and computes the recursive
    /// hash of the structure under the place-dependent padding rule.
    pub fn root(&self) -> (r: Digest)
        requires
            self.wf(),
        ensures
            r@ == self.root_of(),
    {
        let n = self.segments.len();
        if n > 0 {
            let s0 = &self.segments[0];
            if s0.position_value() == 0 && s0.height_value() == 24 {
                return s0.content_digest();
            }
        }
        proof {
            lemma_span_values();
            lemma_pow4_pos(24);
            lemma_small_mod(0, pow4(24) as nat);
            assert(region_ok(self.segments@, self.next as int, 0, n as int, 0, 24));
            lemma_children_ok(self.segments@, self.next as int, 0, n as int, 0, 24);
        }
        let q = pow4_u64(23);
        let m1 = first_ge_index(&self.segments, 0, n, q);
        let m2 = first_ge_index(&self.segments, m1, n, 2 * q);
        let m3 = first_ge_index(&self.segments, m2, n, 3 * q);
        let r0 = region_digest(&self.segments, self.next, 0, m1, 0, 23);
        let r1 = region_digest(&self.segments, self.next, m1, m2, q, 23);
        let r2 = region_digest(&self.segments, self.next, m2, m3, 2 * q, 23);
        let r3 = region_digest(&self.segments, self.next, m3, n, 3 * q, 23);
        Digest::node(24, &r0, &r1, &r2, &r3)
    }

    /// Append a commitment at the next position.
    ///
    /// A commitment already witnessed in the tree is refused, and the tree
    /// is unchanged.  A full tree is refused, and the tree is unchanged.
    /// Otherwise the commitment occupies the next position — as a witnessed
    /// leaf under [`Witness::Keep`], as its bare leaf hash under
    /// [`Witness::Forget`] — and the next position advances by exactly one.
    #[verifier::rlimit(100)]
    pub fn insert(&mut self, witness: Witness, commitment: Commitment) -> (result: Result<
        (),
        InsertError,
    >)
        requires
            old(self).wf(),
        ensures
            final(self).wf(),
            result == Ok::<(), InsertError>(()) <==> (!old(self).contains_commitment(commitment@)
                && old(self).next < TREE_SPAN),
            old(self).contains_commitment(commitment@) ==> result == Err::<(), InsertError>(
                InsertError::DuplicateCommitment,
            ) && *final(self) == *old(self),
            !old(self).contains_commitment(commitment@) && old(self).next == TREE_SPAN ==> result
                == Err::<(), InsertError>(InsertError::Full) && *final(self) == *old(self),
            result == Ok::<(), InsertError>(()) ==> {
                &&& final(self).next == old(self).next + 1
                &&& final(self).forgotten == old(self).forgotten
                &&& final(self).segments@.len() == old(self).segments@.len() + 1
                &&& forall|i: int|
                    0 <= i < old(self).segments@.len() ==> final(self).segments@[i] == old(self).segments@[i]
                &&& final(self).segments@.last().pos() == old(self).next
                &&& final(self).segments@.last().height() == 0
                &&& final(self).segments@.last().content_hash() == leaf_hash_of(commitment@)
                &&& final(self).segments@.last().stamp_of() == 0
                &&& (final(self).segments@.last().is_leaf() <==> witness == Witness::Keep)
                &&& (witness == Witness::Keep ==> final(self).segments@.last().leaf_commitment()
                    == commitment@)
            },
    {
        if self.find_leaf(&commitment).is_some() {
            return Err(InsertError::DuplicateCommitment);
        }
        if self.next >= TREE_SPAN {
            return Err(InsertError::Full);
        }
        let seg = match witness {
            Witness::Keep => Segment::Leaf { position: self.next, commitment },
            Witness::Forget => Segment::Pruned {
                position: self.next,
                height: 0,
                hash: Digest::of(&commitment),
                stamp: 0,
            },
        };
        proof {
            assert(seg.pos() % seg.span() == 0) by {
                lemma_mod_multiples_basic(seg.pos(), 1);
                assert(seg.pos() * 1 == seg.pos());
            }
        }
        self.segments.push(seg);
        self.next = self.next + 1;
        proof {
            let segs = self.segments@;
            let prev = old(self).segments@;
            assert(segs.last() == seg);
            assert forall|a: int, b: int|
                0 <= a < b < segs.len() implies (#[trigger] segs[a]).end() <= (
            #[trigger] segs[b]).pos() by {
                if b < prev.len() as int {
                } else {
                    assert(segs[b] == seg);
                    assert(prev[a].end() <= old(self).next as int);
                }
            }
            // The appended leaf either abuts the last segment or sits where
            // sealing left the next position: on a block boundary.
            assert forall|a: int|
                0 <= a < segs.len() implies (#[trigger] segs[a]).pos() == prev_covered_end(segs, a)
                || segs[a].pos() % (BLOCK_SPAN as int) == 0 by {
                if a < prev.len() as int {
                    assert(segs[a] == prev[a]);
                    if a > 0 {
                        assert(prev_covered_end(segs, a) == prev_covered_end(prev, a));
                    }
                } else {
                    assert(segs[a] == seg);
                    assert(prev_covered_end(segs, a) == covered_end(prev));
                }
            }
            assert(covered_end(segs) == old(self).next + 1);
        }
        Ok(())
    }

    /// Seal the current block: advance the next position to the next block
    /// boundary.  Sealing while the tree is full is refused.
    pub fn end_block(&mut self) -> (result: Result<(), InsertError>)
        requires
            old(self).wf(),
        ensures
            final(self).wf(),
            old(self).next == TREE_SPAN ==> result == Err::<(), InsertError>(InsertError::Full)
                && *final(self) == *old(self),
            old(self).next < TREE_SPAN ==> result == Ok::<(), InsertError>(()) && final(self).segments == old(self).segments && final(self).forgotten == old(self).forgotten
                && final(self).next == next_block_boundary(old(self).next as int),
    {
        if self.next >= TREE_SPAN {
            return Err(InsertError::Full);
        }
        let b = self.next / BLOCK_SPAN;
        proof {
            lemma_fundamental_div_mod(self.next as int, BLOCK_SPAN as int);
            vstd::arithmetic::div_mod::lemma_mod_division_less_than_divisor(
                self.next as int,
                BLOCK_SPAN as int,
            );
            assert((b + 1) * BLOCK_SPAN <= TREE_SPAN && self.next < (b + 1) * BLOCK_SPAN)
                by (nonlinear_arith)
                requires
                    self.next as int == (BLOCK_SPAN as int) * (b as int) + (self.next as int % (
                    BLOCK_SPAN as int)),
                    0 <= self.next as int % (BLOCK_SPAN as int) < BLOCK_SPAN as int,
                    self.next < TREE_SPAN,
                    BLOCK_SPAN == 65536,
                    TREE_SPAN == 281474976710656,
            ;
        }
        self.next = (b + 1) * BLOCK_SPAN;
        proof {
            lemma_mod_multiples_basic(b as int + 1, BLOCK_SPAN as int);
        }
        Ok(())
    }

    /// Seal the current block and epoch: advance the next position to the
    /// next epoch boundary.  Sealing while the tree is full is refused.
    pub fn end_epoch(&mut self) -> (result: Result<(), InsertError>)
        requires
            old(self).wf(),
        ensures
            final(self).wf(),
            old(self).next == TREE_SPAN ==> result == Err::<(), InsertError>(InsertError::Full)
                && *final(self) == *old(self),
            old(self).next < TREE_SPAN ==> result == Ok::<(), InsertError>(()) && final(self).segments == old(self).segments && final(self).forgotten == old(self).forgotten
                && final(self).next == next_epoch_boundary(old(self).next as int),
    {
        if self.next >= TREE_SPAN {
            return Err(InsertError::Full);
        }
        let e = self.next / EPOCH_SPAN;
        proof {
            lemma_fundamental_div_mod(self.next as int, EPOCH_SPAN as int);
            vstd::arithmetic::div_mod::lemma_mod_division_less_than_divisor(
                self.next as int,
                EPOCH_SPAN as int,
            );
            assert((e + 1) * EPOCH_SPAN <= TREE_SPAN && self.next < (e + 1) * EPOCH_SPAN)
                by (nonlinear_arith)
                requires
                    self.next as int == (EPOCH_SPAN as int) * (e as int) + (self.next as int % (
                    EPOCH_SPAN as int)),
                    0 <= self.next as int % (EPOCH_SPAN as int) < EPOCH_SPAN as int,
                    self.next < TREE_SPAN,
                    EPOCH_SPAN == 4294967296,
                    TREE_SPAN == 281474976710656,
            ;
        }
        self.next = (e + 1) * EPOCH_SPAN;
        proof {
            assert((e as int + 1) * (EPOCH_SPAN as int) == ((e as int + 1) * (BLOCK_SPAN as int))
                * (BLOCK_SPAN as int)) by (nonlinear_arith)
                requires
                    EPOCH_SPAN == 4294967296,
                    BLOCK_SPAN == 65536,
            ;
            lemma_mod_multiples_basic((e as int + 1) * (BLOCK_SPAN as int), BLOCK_SPAN as int);
        }
        Ok(())
    }

    /// Find the index of the witnessed leaf holding the given commitment.
    fn find_leaf(&self, commitment: &Commitment) -> (r: Option<usize>)
        ensures
            r is Some <==> self.contains_commitment(commitment@),
            r matches Some(t) ==> t < self.segments@.len() && self.segments@[t as int].is_leaf()
                && self.segments@[t as int].leaf_commitment() == commitment@,
    {
        let n = self.segments.len();
        let mut i: usize = 0;
        while i < n
            invariant
                n == self.segments@.len(),
                i <= n,
                forall|j: int|
                    0 <= j < i ==> !((#[trigger] self.segments@[j]).is_leaf()
                        && self.segments@[j].leaf_commitment() == commitment@),
            decreases n - i,
        {
            let hit = match &self.segments[i] {
                Segment::Leaf { commitment: c2, .. } => bytes32_eq(&c2.0, &commitment.0),
                Segment::Pruned { .. } => false,
            };
            if hit {
                return Some(i);
            }
            i = i + 1;
        }
        None
    }

    /// Witness a commitment: report its position and the authentication
    /// path of 24 steps relating it to the root.
    ///
    /// The path is sound: folding it toward the reported position, starting
    /// from the commitment's leaf hash, yields exactly this tree's root.  A
    /// commitment that was never inserted with [`Witness::Keep`], or has
    /// been forgotten, is not witnessed.
    #[verifier::rlimit(100)]
    #[verifier::spinoff_prover]
    pub fn witness(&self, commitment: &Commitment) -> (result: Option<WitnessProof>)
        requires
            self.wf(),
        ensures
            result is Some <==> self.contains_commitment(commitment@),
            result matches Some(proof) ==> {
                &&& proof.auth_path@.len() == 24
                &&& proof.position < TREE_SPAN
                &&& self.commitment_at(proof.position as int, commitment@)
                &&& fold_path(
                    proof.auth_path@,
                    proof.position as int,
                    leaf_hash_of(commitment@),
                ) == self.root_of()
                &&& forall|k: int|
                    0 <= k < 24 ==> step_matches_siblings(
                        #[trigger] proof.auth_path@[k],
                        self.segments@,
                        self.next as int,
                        proof.position as int,
                        24 - k,
                    )
            },
    {
        let t = match self.find_leaf(commitment) {
            Some(t) => t,
            None => {
                return None;
            },
        };
        let n = self.segments.len();
        let p = self.segments[t].position_value();
        proof {
            lemma_span_values();
            lemma_pow4_pos(24);
            lemma_pow4_pos(self.segments@[t as int].height());
            lemma_small_mod(0, pow4(24) as nat);
            assert(region_ok(self.segments@, self.next as int, 0, n as int, 0, 24));
            // The root's span starts at zero and lists every segment.
            lemma_small_mod(p as nat, pow4(24) as nat);
            assert(0 == level_base(p as int, 24));
            assert(first_ge(self.segments@, 0, n as int, 0) == 0);
            assert forall|x: int|
                0 <= x < n implies (#[trigger] self.segments@[x]).pos() < pow4(24) by {
                lemma_pow4_pos(self.segments@[x].height());
            }
            lemma_first_ge_char(self.segments@, 0, n as int, pow4(24), n as int);
        }
        let mut lo: usize = 0;
        let mut hi: usize = n;
        let mut base: u64 = 0;
        let mut h: u8 = 24;
        let mut path: Vec<PathStep> = Vec::new();
        while h > 0
            invariant
                self.wf(),
                n == self.segments@.len(),
                t < n,
                self.segments@[t as int].is_leaf(),
                self.segments@[t as int].leaf_commitment() == commitment@,
                p == self.segments@[t as int].pos(),
                h <= 24,
                lo <= t < hi <= n,
                region_ok(
                    self.segments@,
                    self.next as int,
                    lo as int,
                    hi as int,
                    base as int,
                    h as int,
                ),
                base <= p < base + pow4(h as int),
                base as int == level_base(p as int, h as int),
                lo as int == first_ge(self.segments@, 0, n as int, base as int),
                hi as int == first_ge(self.segments@, 0, n as int, base as int + pow4(h as int)),
                path@.len() == 24 - h,
                forall|k: int|
                    0 <= k < path@.len() ==> step_matches_siblings(
                        #[trigger] path@[k],
                        self.segments@,
                        self.next as int,
                        p as int,
                        24 - k,
                    ),
                fold_at(
                    path@,
                    p as int,
                    region_hash(
                        self.segments@,
                        self.next as int,
                        lo as int,
                        hi as int,
                        base as int,
                        h as int,
                    ),
                    24,
                ) == self.root_of(),
            decreases h,
        {
            proof {
                lemma_target_not_exact(
                    self.segments@,
                    self.next as int,
                    lo as int,
                    hi as int,
                    base as int,
                    h as int,
                    t as int,
                );
                lemma_children_ok(
                    self.segments@,
                    self.next as int,
                    lo as int,
                    hi as int,
                    base as int,
                    h as int,
                );
                lemma_wf_pos_increasing(self.segments@, self.next as int);
                crate::position::lemma_digit_bounds(p as int, base as int, h as int);
                lemma_pow4_pos(h as int - 1);
            }
            let q = pow4_u64(h - 1);
            let m1 = first_ge_index(&self.segments, lo, hi, base + q);
            let m2 = first_ge_index(&self.segments, m1, hi, base + 2 * q);
            let m3 = first_ge_index(&self.segments, m2, hi, base + 3 * q);
            proof {
                lemma_first_ge_props(self.segments@, lo as int, hi as int, base as int + q);
                lemma_first_ge_props(self.segments@, m1 as int, hi as int, base as int + 2 * q);
                lemma_first_ge_props(self.segments@, m2 as int, hi as int, base as int + 3 * q);
            }
            let d: u8 = if p < base + q {
                0
            } else if p < base + 2 * q {
                1
            } else if p < base + 3 * q {
                2
            } else {
                3
            };
            proof {
                let dd = crate::position::digit(p as int, h as int);
                assert(d as int == dd) by (nonlinear_arith)
                    requires
                        q as int == pow4(h as int - 1),
                        q > 0,
                        0 <= dd < 4,
                        base as int + dd * (q as int) <= p as int,
                        (p as int) < base as int + (dd + 1) * (q as int),
                        d as int == (if (p as int) < base as int + q as int {
                            0int
                        } else if (p as int) < base as int + 2 * (q as int) {
                            1int
                        } else if (p as int) < base as int + 3 * (q as int) {
                            2int
                        } else {
                            3int
                        }),
                ;
            }
            let (new_lo, new_hi, new_base): (usize, usize, u64) = if d == 0 {
                (lo, m1, base)
            } else if d == 1 {
                (m1, m2, base + q)
            } else if d == 2 {
                (m2, m3, base + 2 * q)
            } else {
                (m3, hi, base + 3 * q)
            };
            let s0 = region_digest(&self.segments, self.next, lo, m1, base, h - 1);
            let s1 = region_digest(&self.segments, self.next, m1, m2, base + q, h - 1);
            let s2 = region_digest(&self.segments, self.next, m2, m3, base + 2 * q, h - 1);
            let s3 = region_digest(&self.segments, self.next, m3, hi, base + 3 * q, h - 1);
            let step = if d == 0 {
                PathStep { first: s1, second: s2, third: s3 }
            } else if d == 1 {
                PathStep { first: s0, second: s2, third: s3 }
            } else if d == 2 {
                PathStep { first: s0, second: s1, third: s3 }
            } else {
                PathStep { first: s0, second: s1, third: s2 }
            };
            proof {
                lemma_witness_step(
                    self.segments@,
                    self.next as int,
                    p as int,
                    h as int,
                    t as int,
                    lo as int,
                    hi as int,
                    base as int,
                    m1 as int,
                    m2 as int,
                    m3 as int,
                    d as int,
                    step,
                    s0@,
                    s1@,
                    s2@,
                    s3@,
                    new_lo as int,
                    new_hi as int,
                    new_base as int,
                );
                let ghost below = region_hash(
                    self.segments@,
                    self.next as int,
                    new_lo as int,
                    new_hi as int,
                    new_base as int,
                    h as int - 1,
                );
                lemma_fold_at_push(path@, step, p as int, below, 24);
            }
            let ghost prev_path = path@;
            path.push(step);
            proof {
                assert forall|k: int|
                    0 <= k < path@.len() implies step_matches_siblings(
                    #[trigger] path@[k],
                    self.segments@,
                    self.next as int,
                    p as int,
                    24 - k,
                ) by {
                    if k < prev_path.len() {
                        assert(path@[k] == prev_path[k]);
                    } else {
                        assert(path@[k] == step);
                        assert(24 - k == h as int);
                    }
                }
            }
            lo = new_lo;
            hi = new_hi;
            base = new_base;
            h = h - 1;
        }
        proof {
            crate::segment::lemma_h0_exact(
                self.segments@,
                self.next as int,
                lo as int,
                hi as int,
                base as int,
            );
            lemma_wf_pos_increasing(self.segments@, self.next as int);
            assert(lo == t);
            assert(region_hash(
                self.segments@,
                self.next as int,
                lo as int,
                hi as int,
                base as int,
                0,
            ) == leaf_hash_of(commitment@));
        }
        Some(WitnessProof { position: p, auth_path: path })
    }

    /// Forget a commitment: collapse its witnessed leaf into its bare leaf
    /// hash, stamped with the bumped forgotten-version counter.
    ///
    /// Returns whether anything was forgotten.  The root is unchanged
    /// either way; afterwards the commitment is no longer witnessed, and
    /// every other commitment is witnessed exactly as before.
    pub fn forget(&mut self, commitment: &Commitment) -> (was_witnessed: bool)
        requires
            old(self).wf(),
            old(self).forgotten < u64::MAX,
        ensures
            final(self).wf(),
            was_witnessed <==> old(self).contains_commitment(commitment@),
            !was_witnessed ==> *final(self) == *old(self),
            final(self).root_of() == old(self).root_of(),
            !final(self).contains_commitment(commitment@),
            final(self).next == old(self).next,
            final(self).segments@.len() == old(self).segments@.len(),
            was_witnessed ==> final(self).forgotten == old(self).forgotten + 1,
            was_witnessed ==> exists|i: int|
                {
                    &&& 0 <= i < old(self).segments@.len()
                    &&& (#[trigger] old(self).segments@[i]).is_leaf()
                    &&& old(self).segments@[i].leaf_commitment() == commitment@
                    &&& final(self).segments@[i].pos() == old(self).segments@[i].pos()
                    &&& !final(self).segments@[i].is_leaf()
                    &&& final(self).segments@[i].height() == 0
                    &&& final(self).segments@[i].content_hash() == leaf_hash_of(commitment@)
                    &&& final(self).segments@[i].stamp_of() == old(self).forgotten + 1
                    &&& forall|j: int|
                        0 <= j < old(self).segments@.len() && j != i ==> final(self).segments@[j]
                            == old(self).segments@[j]
                },
            forall|c: Seq<u8>|
                c != commitment@ ==> (final(self).contains_commitment(c) <==> old(self).contains_commitment(c)),
            forall|pp: int, c: Seq<u8>|
                c != commitment@ ==> (final(self).commitment_at(pp, c) <==> old(self).commitment_at(pp, c)),
    {
        let t = match self.find_leaf(commitment) {
            Some(t) => t,
            None => {
                return false;
            },
        };
        let pos = self.segments[t].position_value();
        let stamp = self.forgotten + 1;
        let replacement = Segment::Pruned {
            position: pos,
            height: 0,
            hash: Digest::of(commitment),
            stamp,
        };
        let _removed = self.segments.remove(t);
        self.segments.insert(t, replacement);
        self.forgotten = stamp;
        proof {
            let prev = old(self).segments@;
            let cur = self.segments@;
            assert(cur =~= prev.update(t as int, replacement));
            assert forall|i: int|
                0 <= i < cur.len() implies (#[trigger] cur[i]).pos() == prev[i].pos()
                && cur[i].height() == prev[i].height() && cur[i].content_hash() == prev[i].content_hash() by {
                if i == t as int {
                    assert(prev[i].content_hash() == leaf_hash_of(commitment@));
                }
            }
            assert(segs_wf(cur, self.next as int)) by {
                assert forall|i: int, j: int|
                    0 <= i < j < cur.len() && (#[trigger] cur[i]).is_leaf() && (
                #[trigger] cur[j]).is_leaf() implies cur[i].leaf_commitment() != cur[j].leaf_commitment() by {
                    assert(prev[i].is_leaf() && prev[j].is_leaf());
                }
            }
            lemma_tree_root_congruent(prev, cur, self.next as int);
            // Gaps are untouched: every position and end is preserved.
            assert forall|a: int|
                0 <= a < cur.len() implies (#[trigger] cur[a]).pos() == prev_covered_end(cur, a)
                || cur[a].pos() % (BLOCK_SPAN as int) == 0 by {
                assert(cur[a].pos() == prev[a].pos());
                if a > 0 {
                    assert(cur[a - 1].end() == prev[a - 1].end());
                }
            }
            assert(covered_end(cur) == covered_end(prev));
            // The pruned location carries the bumped stamp; everything else
            // is untouched.
            assert(cur[t as int].stamp_of() == old(self).forgotten + 1);
            assert(forall|j: int|
                0 <= j < prev.len() && j != t as int ==> #[trigger] cur[j] == prev[j]);
            assert forall|c: Seq<u8>|
                c != commitment@ implies (self.contains_commitment(c) <==> old(self).contains_commitment(c)) by {
                if old(self).contains_commitment(c) {
                    let i = choose|i: int|
                        0 <= i < prev.len() && (#[trigger] prev[i]).is_leaf()
                            && prev[i].leaf_commitment() == c;
                    assert(cur[i].is_leaf() && cur[i].leaf_commitment() == c);
                }
                if self.contains_commitment(c) {
                    let i = choose|i: int|
                        0 <= i < cur.len() && (#[trigger] cur[i]).is_leaf()
                            && cur[i].leaf_commitment() == c;
                    assert(prev[i].is_leaf() && prev[i].leaf_commitment() == c);
                }
            }
            assert forall|pp: int, c: Seq<u8>|
                c != commitment@ implies (self.commitment_at(pp, c) <==> old(self).commitment_at(pp, c)) by {
                if old(self).commitment_at(pp, c) {
                    let i = choose|i: int|
                        0 <= i < prev.len() && (#[trigger] prev[i]).is_leaf() && prev[i].pos() == pp
                            && prev[i].leaf_commitment() == c;
                    assert(cur[i].is_leaf() && cur[i].pos() == pp && cur[i].leaf_commitment() == c);
                }
                if self.commitment_at(pp, c) {
                    let i = choose|i: int|
                        0 <= i < cur.len() && (#[trigger] cur[i]).is_leaf() && cur[i].pos() == pp
                            && cur[i].leaf_commitment() == c;
                    assert(prev[i].is_leaf() && prev[i].pos() == pp && prev[i].leaf_commitment()
                        == c);
                }
            }
            assert forall|i: int|
                0 <= i < cur.len() && (#[trigger] cur[i]).is_leaf() implies cur[i].leaf_commitment()
                != commitment@ by {
                if i != t as int {
                    assert(prev[i].is_leaf() && prev[t as int].is_leaf());
                }
            }
        }
        true
    }
}

/// One level of the witness descent: the emitted digests are the sibling
/// quarters' region hashes, the node's hash combines them around the focus
/// quarter, and the focus quarter carries the path invariants one level
/// down.
#[verifier::rlimit(100)]
#[verifier::spinoff_prover]
proof fn lemma_witness_step(
    segs: Seq<Segment>,
    next: int,
    p: int,
    h: int,
    t: int,
    lo: int,
    hi: int,
    base: int,
    m1: int,
    m2: int,
    m3: int,
    d: int,
    step: PathStep,
    s0: Seq<u8>,
    s1: Seq<u8>,
    s2: Seq<u8>,
    s3: Seq<u8>,
    new_lo: int,
    new_hi: int,
    new_base: int,
)
    requires
        region_ok(segs, next, lo, hi, base, h),
        h >= 1,
        0 <= p,
        lo <= t < hi,
        segs[t].is_leaf(),
        p == segs[t].pos(),
        base == level_base(p, h),
        base <= p < base + pow4(h),
        lo == first_ge(segs, 0, segs.len() as int, base),
        hi == first_ge(segs, 0, segs.len() as int, base + pow4(h)),
        m1 == first_ge(segs, lo, hi, base + pow4(h - 1)),
        m2 == first_ge(segs, m1, hi, base + 2 * pow4(h - 1)),
        m3 == first_ge(segs, m2, hi, base + 3 * pow4(h - 1)),
        d == digit(p, h),
        s0 == region_hash(segs, next, lo, m1, base, h - 1),
        s1 == region_hash(segs, next, m1, m2, base + pow4(h - 1), h - 1),
        s2 == region_hash(segs, next, m2, m3, base + 2 * pow4(h - 1), h - 1),
        s3 == region_hash(segs, next, m3, hi, base + 3 * pow4(h - 1), h - 1),
        d == 0 ==> step.first@ == s1 && step.second@ == s2 && step.third@ == s3,
        d == 1 ==> step.first@ == s0 && step.second@ == s2 && step.third@ == s3,
        d == 2 ==> step.first@ == s0 && step.second@ == s1 && step.third@ == s3,
        d == 3 ==> step.first@ == s0 && step.second@ == s1 && step.third@ == s2,
        new_lo == (if d == 0 {
            lo
        } else if d == 1 {
            m1
        } else if d == 2 {
            m2
        } else {
            m3
        }),
        new_hi == (if d == 0 {
            m1
        } else if d == 1 {
            m2
        } else if d == 2 {
            m3
        } else {
            hi
        }),
        new_base == (if d == 0 {
            base
        } else if d == 1 {
            base + pow4(h - 1)
        } else if d == 2 {
            base + 2 * pow4(h - 1)
        } else {
            base + 3 * pow4(h - 1)
        }),
    ensures
        step_hash(
            step,
            d,
            h,
            region_hash(segs, next, new_lo, new_hi, new_base, h - 1),
        ) == region_hash(segs, next, lo, hi, base, h),
        new_base == level_base(p, h - 1),
        new_base <= p < new_base + pow4(h - 1),
        new_lo == first_ge(segs, 0, segs.len() as int, new_base),
        new_hi == first_ge(segs, 0, segs.len() as int, new_base + pow4(h - 1)),
        new_lo <= t < new_hi,
        step_matches_siblings(step, segs, next, p, h),
{
    let n = segs.len() as int;
    let q = pow4(h - 1);
    lemma_pow4_pos(h - 1);
    lemma_wf_pos_increasing(segs, next);
    lemma_target_not_exact(segs, next, lo, hi, base, h, t);
    crate::position::lemma_digit_bounds(p, base, h);
    lemma_first_ge_props(segs, lo, hi, base + q);
    lemma_first_ge_props(segs, m1, hi, base + 2 * q);
    lemma_first_ge_props(segs, m2, hi, base + 3 * q);
    lemma_quarter_bounds(segs, next, lo, hi, base, h, m1, m2, m3);
    crate::position::lemma_level_base_aligned(p, h);
    lemma_pow4_align(base, h - 1, h);
    if d == 1 {
        lemma_mod_multiples_basic(1, q);
        assert(1 * q == q);
        lemma_mod_sum_zero(base, q, q);
    } else if d == 2 {
        lemma_mod_multiples_basic(2, q);
        lemma_mod_sum_zero(base, 2 * q, q);
    } else if d == 3 {
        lemma_mod_multiples_basic(3, q);
        lemma_mod_sum_zero(base, 3 * q, q);
    }
    crate::position::lemma_mod_from_aligned(p, new_base, q);
    assert(new_base == level_base(p, h - 1));
    assert(base + pow4(h) == base + 4 * q);
    assert(new_hi == first_ge(segs, 0, n, new_base + q));
    // The target leaf falls in the focus quarter.
    assert(new_lo <= t < new_hi) by {
        lemma_first_ge_props(segs, 0, n, new_base);
        lemma_first_ge_props(segs, 0, n, new_base + q);
    }
    // The node's hash combines the quarters around the focus.
    assert(step_hash(
        step,
        d,
        h,
        region_hash(segs, next, new_lo, new_hi, new_base, h - 1),
    ) == region_hash(segs, next, lo, hi, base, h));
    assert(step_matches_siblings(step, segs, next, p, h));
}

/// Within a node whose global segment bounds are known, the nested
/// `first_ge` splits at the quarter boundaries are the global ones.
#[verifier::rlimit(100)]
#[verifier::spinoff_prover]
proof fn lemma_quarter_bounds(
    segs: Seq<Segment>,
    next: int,
    lo: int,
    hi: int,
    base: int,
    h: int,
    m1: int,
    m2: int,
    m3: int,
)
    requires
        region_ok(segs, next, lo, hi, base, h),
        h >= 1,
        lo == first_ge(segs, 0, segs.len() as int, base),
        hi == first_ge(segs, 0, segs.len() as int, base + pow4(h)),
        m1 == first_ge(segs, lo, hi, base + pow4(h - 1)),
        m2 == first_ge(segs, m1, hi, base + 2 * pow4(h - 1)),
        m3 == first_ge(segs, m2, hi, base + 3 * pow4(h - 1)),
    ensures
        m1 == first_ge(segs, 0, segs.len() as int, base + pow4(h - 1)),
        m2 == first_ge(segs, 0, segs.len() as int, base + 2 * pow4(h - 1)),
        m3 == first_ge(segs, 0, segs.len() as int, base + 3 * pow4(h - 1)),
{
    let n = segs.len() as int;
    let q = pow4(h - 1);
    lemma_pow4_pos(h - 1);
    lemma_wf_pos_increasing(segs, next);
    lemma_first_ge_props(segs, 0, n, base);
    lemma_first_ge_props(segs, 0, n, base + pow4(h));
    lemma_first_ge_props(segs, lo, hi, base + q);
    lemma_first_ge_props(segs, m1, hi, base + 2 * q);
    lemma_first_ge_props(segs, m2, hi, base + 3 * q);
    assert(pow4(h) == 4 * q);
    assert forall|x: int| 0 <= x < m1 implies (#[trigger] segs[x]).pos() < base + q by {
        if x < lo {
            assert(segs[x].pos() < base);
        }
    }
    assert forall|x: int| m1 <= x < n implies (#[trigger] segs[x]).pos() >= base + q by {
        if x >= hi {
            assert(segs[x].pos() >= base + pow4(h));
        }
    }
    lemma_first_ge_char(segs, 0, n, base + q, m1);
    assert forall|x: int| 0 <= x < m2 implies (#[trigger] segs[x]).pos() < base + 2 * q by {
        if x < lo {
            assert(segs[x].pos() < base);
        } else if x < m1 {
            assert(segs[x].pos() < base + q);
        }
    }
    assert forall|x: int| m2 <= x < n implies (#[trigger] segs[x]).pos() >= base + 2 * q by {
        if x >= hi {
            assert(segs[x].pos() >= base + pow4(h));
        }
    }
    lemma_first_ge_char(segs, 0, n, base + 2 * q, m2);
    assert forall|x: int| 0 <= x < m3 implies (#[trigger] segs[x]).pos() < base + 3 * q by {
        if x < lo {
            assert(segs[x].pos() < base);
        } else if x < m1 {
            assert(segs[x].pos() < base + q);
        } else if x < m2 {
            assert(segs[x].pos() < base + 2 * q);
        }
    }
    assert forall|x: int| m3 <= x < n implies (#[trigger] segs[x]).pos() >= base + 3 * q by {
        if x >= hi {
            assert(segs[x].pos() >= base + pow4(h));
        }
    }
    lemma_first_ge_char(segs, 0, n, base + 3 * q, m3);
}

/// A region at height 1 or above holding a witnessed leaf is never exactly
/// covered by a single segment.
proof fn lemma_target_not_exact(
    segs: Seq<Segment>,
    next: int,
    lo: int,
    hi: int,
    base: int,
    h: int,
    t: int,
)
    requires
        region_ok(segs, next, lo, hi, base, h),
        h >= 1,
        lo <= t < hi,
        segs[t].is_leaf(),
    ensures
        !region_exact(segs, lo, hi, base, h),
{
    if region_exact(segs, lo, hi, base, h) {
        lemma_pow4_pos(segs[t].height());
        if t > lo {
            assert(segs[lo].end() <= segs[t].pos());
        }
    }
}

/// Sealing never moves the position backward: both boundaries lie strictly
/// past the position they are computed from.
pub proof fn lemma_boundary_advances(next: int)
    requires
        0 <= next,
    ensures
        next_block_boundary(next) > next,
        next_epoch_boundary(next) > next,
{
    lemma_fundamental_div_mod(next, BLOCK_SPAN as int);
    vstd::arithmetic::div_mod::lemma_mod_division_less_than_divisor(next, BLOCK_SPAN as int);
    let b = next / (BLOCK_SPAN as int);
    assert((b + 1) * (BLOCK_SPAN as int) > next) by (nonlinear_arith)
        requires
            next == (BLOCK_SPAN as int) * b + next % (BLOCK_SPAN as int),
            next % (BLOCK_SPAN as int) < BLOCK_SPAN as int,
    ;
    lemma_fundamental_div_mod(next, EPOCH_SPAN as int);
    vstd::arithmetic::div_mod::lemma_mod_division_less_than_divisor(next, EPOCH_SPAN as int);
    let e = next / (EPOCH_SPAN as int);
    assert((e + 1) * (EPOCH_SPAN as int) > next) by (nonlinear_arith)
        requires
            next == (EPOCH_SPAN as int) * e + next % (EPOCH_SPAN as int),
            next % (EPOCH_SPAN as int) < EPOCH_SPAN as int,
    ;
}

/// Sealing an empty block — one whose position already sits on a block
/// boundary — advances the position by exactly one block span; sealing an
/// empty epoch advances it by exactly one epoch span.
pub proof fn lemma_seal_empty_advance(next: int)
    requires
        0 <= next,
    ensures
        next % (BLOCK_SPAN as int) == 0 ==> next_block_boundary(next) == next + BLOCK_SPAN,
        next % (EPOCH_SPAN as int) == 0 ==> next_epoch_boundary(next) == next + EPOCH_SPAN,
{
    if next % (BLOCK_SPAN as int) == 0 {
        lemma_fundamental_div_mod(next, BLOCK_SPAN as int);
        let b = next / (BLOCK_SPAN as int);
        assert((b + 1) * (BLOCK_SPAN as int) == next + BLOCK_SPAN) by (nonlinear_arith)
            requires
                next == (BLOCK_SPAN as int) * b,
        ;
    }
    if next % (EPOCH_SPAN as int) == 0 {
        lemma_fundamental_div_mod(next, EPOCH_SPAN as int);
        let e = next / (EPOCH_SPAN as int);
        assert((e + 1) * (EPOCH_SPAN as int) == next + EPOCH_SPAN) by (nonlinear_arith)
            requires
                next == (EPOCH_SPAN as int) * e,
        ;
    }
}

/// Region hashes are untouched by replacing segments with others of the
/// same position, height and hash — as forgetting does.
pub proof fn lemma_tree_root_congruent(s1: Seq<Segment>, s2: Seq<Segment>, next: int)
    requires
        s1.len() == s2.len(),
        forall|i: int|
            0 <= i < s1.len() ==> (#[trigger] s1[i]).pos() == (#[trigger] s2[i]).pos()
                && s1[i].height() == s2[i].height() && s1[i].content_hash() == s2[i].content_hash(),
    ensures
        tree_root_hash(s1, next) == tree_root_hash(s2, next),
{
    crate::segment::lemma_children_hash_congruent(s1, s2, next, 0, s1.len() as int, 0, 24);
}

} // verus!

//! Incremental serialization of a tree into rows of plain values.
//!
//! A tree serializes into three streams, each in depth-first pre-order of
//! the live structure — which, for stored contents, is increasing position
//! order, parents before children:
//!
//! 1. hash rows `(position, height, hash)`: every pruned span at or past
//!    the minimum position (such hashes cannot be recomputed from anything
//!    else), and, if the serializer keeps internal hashes, every sealed
//!    (complete) internal node at or past the minimum position.  The hashes
//!    of frontier nodes are transient and are never emitted.
//! 2. commitment rows `(position, commitment)`: every witnessed leaf at or
//!    past the minimum position.
//! 3. forgotten rows `(position, height, hash)`: every pruned span strictly
//!    below the minimum position whose stamp is newer than the last
//!    forgotten version already reflected in storage.  The storage adapter
//!    deletes the span's position range and records its boundary hash.

use vstd::prelude::*;
use crate::hash::Commitment;
use crate::hash::Digest;
use crate::hash::Forgotten;
use crate::segment::Segment;
use crate::segment::region_ok;
use crate::segment::region_exact;
use crate::segment::region_hash;
use crate::segment::first_ge;
use crate::segment::first_ge_index;
use crate::segment::region_digest;
use crate::segment::lemma_children_ok;
use crate::segment::lemma_h0_exact;
use crate::position::pow4;
use crate::position::pow4_u64;
use crate::position::lemma_pow4_pos;
use crate::position::lemma_span_values;
use crate::tree::Tree;
use vstd::arithmetic::div_mod::lemma_small_mod;

verus! {

/// Options for serializing a tree: whether the internal hashes of sealed
/// nodes are written out, or recomputed on deserialization instead.
#[derive(Clone, Copy, Debug, PartialEq, Eq)]
pub struct Options {
    /// Whether internal complete hashes are kept in the output.
    pub keep: bool,
}

impl Default for Options {
    /// By default, internal complete hashes are kept.
    fn default() -> (options: Options)
        ensures
            options.keep,
    {
        Options { keep: true }
    }
}

impl Options {
    /// Keep internal complete hashes in the output (the default).  Kept
    /// hashes make deserialization cheaper at a linear space overhead.
    pub fn keep_internal(&mut self)
        ensures
            final(self).keep,
    {
        self.keep = true;
    }

    /// Omit internal complete hashes from the output; deserialization
    /// recomputes them from the leaves.
    pub fn omit_internal(&mut self)
        ensures
            !final(self).keep,
    {
        self.keep = false;
    }
}

/// A serializer: options, the minimum position to include, and the last
/// forgotten version already reflected in storage.
pub struct Serializer {
    /// The options for the serialization.
    pub options: Options,
    /// The minimum position of node to include; `None` when the tree was
    /// already serialized in full, so that nothing new can remain.
    pub minimum_position: Option<u64>,
    /// The forgotten version up to which deletions are already reflected.
    pub last_forgotten: Forgotten,
}

/// The bound below which nothing is newly emitted: the minimum position,
/// or past every position when there is none.
pub open spec fn min_bound(minimum_position: Option<u64>) -> int {
    match minimum_position {
        Some(m) => m as int,
        None => u64::MAX as int,
    }
}

impl Serializer {
    /// Create a new default serializer: keep internal hashes, no minimum
    /// position, last forgotten version zero.
    pub fn new() -> (s: Serializer)
        ensures
            s.options.keep,
            s.minimum_position is None,
            s.last_forgotten.0 == 0,
    {
        Serializer {
            options: Options { keep: true },
            minimum_position: None,
            last_forgotten: Forgotten(0),
        }
    }

    /// Set the minimum position to include in the serialization.
    pub fn position(&mut self, position: Option<u64>)
        ensures
            final(self).minimum_position == position,
            final(self).options == old(self).options,
            final(self).last_forgotten == old(self).last_forgotten,
    {
        self.minimum_position = position;
    }

    /// Set the last forgotten version already reflected in storage.
    pub fn last_forgotten(&mut self, forgotten: Forgotten)
        ensures
            final(self).last_forgotten == forgotten,
            final(self).options == old(self).options,
            final(self).minimum_position == old(self).minimum_position,
    {
        self.last_forgotten = forgotten;
    }

    /// Keep internal complete hashes in the output (the default).
    pub fn keep_internal(&mut self)
        ensures
            final(self).options.keep,
            final(self).minimum_position == old(self).minimum_position,
            final(self).last_forgotten == old(self).last_forgotten,
    {
        self.options.keep_internal();
    }

    /// Omit internal complete hashes from the output.
    pub fn omit_internal(&mut self)
        ensures
            !final(self).options.keep,
            final(self).minimum_position == old(self).minimum_position,
            final(self).last_forgotten == old(self).last_forgotten,
    {
        self.options.omit_internal();
    }

    /// The hash rows of the tree under this serializer's settings, in
    /// depth-first pre-order.
    pub fn hashes_iter(&self, tree: &Tree) -> (rows: Vec<(u64, u8, Digest)>)
        requires
            tree.wf(),
        ensures
            rows_model(rows@) == hash_rows_of(
                tree.segments@,
                tree.next as int,
                min_bound(self.minimum_position),
                self.options.keep,
            ),
    {
        let n = tree.segments.len();
        let min = match self.minimum_position {
            Some(m) => m,
            None => u64::MAX,
        };
        let mut out: Vec<(u64, u8, Digest)> = Vec::new();
        proof {
            lemma_span_values();
            lemma_pow4_pos(24);
            lemma_small_mod(0, pow4(24) as nat);
            assert(region_ok(tree.segments@, tree.next as int, 0, n as int, 0, 24));
        }
        hash_rows_walk(
            &tree.segments,
            tree.next,
            0,
            n,
            0,
            24,
            min,
            self.options.keep,
            &mut out,
        );
        proof {
            assert(rows_model(Seq::<(u64, u8, Digest)>::empty()) =~= Seq::<(int, int, Seq<u8>)>::empty());
        }
        out
    }

    /// The commitment rows of the tree at or past the minimum position, in
    /// position order.
    pub fn commitments_iter(&self, tree: &Tree) -> (rows: Vec<(u64, Commitment)>)
        requires
            tree.wf(),
        ensures
            commitment_rows_model(rows@) == commitment_rows(
                tree.segments@,
                min_bound(self.minimum_position),
            ),
    {
        let n = tree.segments.len();
        let min = match self.minimum_position {
            Some(m) => m,
            None => u64::MAX,
        };
        let mut out: Vec<(u64, Commitment)> = Vec::new();
        let mut i: usize = 0;
        while i < n
            invariant
                n == tree.segments@.len(),
                i <= n,
                commitment_rows_model(out@) == commitment_rows(
                    tree.segments@.take(i as int),
                    min as int,
                ),
                min as int == min_bound(self.minimum_position),
            decreases n - i,
        {
            proof {
                assert(tree.segments@.take(i as int + 1).drop_last() =~= tree.segments@.take(
                    i as int,
                ));
                assert(tree.segments@.take(i as int + 1).last() == tree.segments@[i as int]);
            }
            let row = match &tree.segments[i] {
                Segment::Leaf { position, commitment } => {
                    if *position >= min {
                        Some((*position, *commitment))
                    } else {
                        None
                    }
                },
                Segment::Pruned { .. } => None,
            };
            if let Some(r) = row {
                out.push(r);
            }
            proof {
                assert(commitment_rows_model(out@) =~= commitment_rows(
                    tree.segments@.take(i as int + 1),
                    min as int,
                ));
            }
            i = i + 1;
        }
        proof {
            assert(tree.segments@.take(n as int) =~= tree.segments@);
        }
        out
    }

    /// The forgotten rows of the tree: pruned spans strictly below the
    /// minimum position whose stamp is newer than the last forgotten
    /// version, in position order.
    pub fn forgotten_iter(&self, tree: &Tree) -> (rows: Vec<(u64, u8, Digest)>)
        requires
            tree.wf(),
        ensures
            rows_model(rows@) == forgotten_rows(
                tree.segments@,
                min_bound(self.minimum_position),
                self.last_forgotten.0 as int,
            ),
    {
        let n = tree.segments.len();
        let min = match self.minimum_position {
            Some(m) => m,
            None => u64::MAX,
        };
        let mut out: Vec<(u64, u8, Digest)> = Vec::new();
        let mut i: usize = 0;
        while i < n
            invariant
                n == tree.segments@.len(),
                i <= n,
                rows_model(out@) == forgotten_rows(
                    tree.segments@.take(i as int),
                    min as int,
                    self.last_forgotten.0 as int,
                ),
                min as int == min_bound(self.minimum_position),
            decreases n - i,
        {
            proof {
                assert(tree.segments@.take(i as int + 1).drop_last() =~= tree.segments@.take(
                    i as int,
                ));
                assert(tree.segments@.take(i as int + 1).last() == tree.segments@[i as int]);
            }
            let row = match &tree.segments[i] {
                Segment::Leaf { .. } => None,
                Segment::Pruned { position, height, hash, stamp } => {
                    if *position < min && *stamp > self.last_forgotten.0 {
                        Some((*position, *height, *hash))
                    } else {
                        None
                    }
                },
            };
            if let Some(r) = row {
                out.push(r);
            }
            proof {
                assert(rows_model(out@) =~= forgotten_rows(
                    tree.segments@.take(i as int + 1),
                    min as int,
                    self.last_forgotten.0 as int,
                ));
            }
            i = i + 1;
        }
        proof {
            assert(tree.segments@.take(n as int) =~= tree.segments@);
        }
        out
    }
}

/// The model of exec hash rows as mathematical triples.
pub open spec fn rows_model(v: Seq<(u64, u8, Digest)>) -> Seq<(int, int, Seq<u8>)> {
    Seq::new(v.len(), |i: int| (v[i].0 as int, v[i].1 as int, v[i].2@))
}

/// The model of exec commitment rows as mathematical pairs.
pub open spec fn commitment_rows_model(v: Seq<(u64, Commitment)>) -> Seq<(int, Seq<u8>)> {
    Seq::new(v.len(), |i: int| (v[i].0 as int, v[i].1@))
}

/// The commitment rows of a store of segments: every witnessed leaf at or
/// past `min`, in order.
pub open spec fn commitment_rows(segs: Seq<Segment>, min: int) -> Seq<(int, Seq<u8>)>
    decreases segs.len(),
{
    if segs.len() == 0 {
        Seq::empty()
    } else {
        let rest = commitment_rows(segs.drop_last(), min);
        let s = segs.last();
        if s.is_leaf() && s.pos() >= min {
            rest.push((s.pos(), s.leaf_commitment()))
        } else {
            rest
        }
    }
}

/// The forgotten rows of a store of segments: every pruned span strictly
/// below `min` whose stamp is newer than `last`, in order.
pub open spec fn forgotten_rows(segs: Seq<Segment>, min: int, last: int) -> Seq<(int, int, Seq<u8>)>
    decreases segs.len(),
{
    if segs.len() == 0 {
        Seq::empty()
    } else {
        let rest = forgotten_rows(segs.drop_last(), min, last);
        let s = segs.last();
        if !s.is_leaf() && s.pos() < min && s.stamp_of() > last {
            rest.push((s.pos(), s.height(), s.content_hash()))
        } else {
            rest
        }
    }
}

/// The hash rows contributed by the region of `4^h` positions at `base`: an
/// exactly-covering pruned span contributes its row; an internal node
/// contributes its own hash when it is sealed and kept, followed by its
/// quarters' rows in order.
pub open spec fn hash_rows(
    segs: Seq<Segment>,
    next: int,
    lo: int,
    hi: int,
    base: int,
    h: int,
    min: int,
    keep: bool,
) -> Seq<(int, int, Seq<u8>)>
    decreases h, 1int,
{
    if region_exact(segs, lo, hi, base, h) {
        if !segs[lo].is_leaf() && segs[lo].pos() >= min {
            seq![(segs[lo].pos(), segs[lo].height(), segs[lo].content_hash())]
        } else {
            Seq::empty()
        }
    } else if lo >= hi {
        Seq::empty()
    } else if h <= 0 {
        Seq::empty()
    } else {
        child_hash_rows(segs, next, lo, hi, base, h, min, keep)
    }
}

/// Companion to [`hash_rows`] for internal nodes.
pub open spec fn child_hash_rows(
    segs: Seq<Segment>,
    next: int,
    lo: int,
    hi: int,
    base: int,
    h: int,
    min: int,
    keep: bool,
) -> Seq<(int, int, Seq<u8>)>
    decreases h, 0int,
{
    if h <= 0 {
        Seq::empty()
    } else {
        let q = pow4(h - 1);
        let m1 = first_ge(segs, lo, hi, base + q);
        let m2 = first_ge(segs, m1, hi, base + 2 * q);
        let m3 = first_ge(segs, m2, hi, base + 3 * q);
        let own: Seq<(int, int, Seq<u8>)> = if keep && base + pow4(h) <= next && base >= min {
            seq![(base, h, region_hash(segs, next, lo, hi, base, h))]
        } else {
            Seq::empty()
        };
        own + hash_rows(segs, next, lo, m1, base, h - 1, min, keep) + hash_rows(
            segs,
            next,
            m1,
            m2,
            base + q,
            h - 1,
            min,
            keep,
        ) + hash_rows(segs, next, m2, m3, base + 2 * q, h - 1, min, keep) + hash_rows(
            segs,
            next,
            m3,
            hi,
            base + 3 * q,
            h - 1,
            min,
            keep,
        )
    }
}

/// The hash rows of a whole tree: those of the root region.
pub open spec fn hash_rows_of(segs: Seq<Segment>, next: int, min: int, keep: bool) -> Seq<
    (int, int, Seq<u8>),
> {
    hash_rows(segs, next, 0, segs.len() as int, 0, 24, min, keep)
}

/// Whether a row is the listing of a witnessed leaf.
pub open spec fn row_is_leaf_of(row: (int, Seq<u8>), s: Segment) -> bool {
    s.is_leaf() && row.0 == s.pos() && row.1 == s.leaf_commitment()
}

/// The commitment rows of a well-formed store of segments list witnessed
/// leaves in strictly increasing position order, each below the next
/// position, without repeating a commitment.
pub proof fn lemma_commitment_rows_faithful(segs: Seq<Segment>, next: int, min: int)
    requires
        crate::segment::segs_wf(segs, next),
    ensures
        ({
            let rows = commitment_rows(segs, min);
            &&& forall|k: int|
                0 <= k < rows.len() ==> exists|i: int|
                    0 <= i < segs.len() && row_is_leaf_of(#[trigger] rows[k], segs[i])
            &&& forall|k: int| 0 <= k < rows.len() ==> min <= (#[trigger] rows[k]).0
            &&& forall|k: int| 0 <= k < rows.len() ==> 0 <= (#[trigger] rows[k]).0 && rows[k].0 + 1 <= next
            &&& forall|a: int, b: int|
                0 <= a < b < rows.len() ==> (#[trigger] rows[a]).0 < (#[trigger] rows[b]).0
            &&& forall|a: int, b: int|
                0 <= a < b < rows.len() ==> (#[trigger] rows[a]).1 != (#[trigger] rows[b]).1
        }),
    decreases segs.len(),
{
    let rows = commitment_rows(segs, min);
    if segs.len() > 0 {
        let d = segs.drop_last();
        assert(forall|i: int| 0 <= i < d.len() ==> #[trigger] d[i] == segs[i]);
        assert(crate::segment::segs_wf(d, next));
        lemma_commitment_rows_faithful(d, next, min);
        let rest = commitment_rows(d, min);
        let s = segs.last();
        assert forall|k: int|
            0 <= k < rows.len() implies exists|i: int|
            0 <= i < segs.len() && row_is_leaf_of(#[trigger] rows[k], segs[i]) by {
            if k < rest.len() {
                assert(rows[k] == rest[k]);
                let i = choose|i: int| 0 <= i < d.len() && row_is_leaf_of(rest[k], d[i]);
                assert(row_is_leaf_of(rows[k], segs[i]));
            } else {
                assert(row_is_leaf_of(rows[k], segs[segs.len() - 1]));
            }
        }
        assert forall|k: int|
            0 <= k < rows.len() implies 0 <= (#[trigger] rows[k]).0 && rows[k].0 + 1 <= next by {
            if k < rest.len() {
                assert(rows[k] == rest[k]);
            } else {
                lemma_pow4_pos(s.height());
            }
        }
        assert forall|a: int, b: int|
            0 <= a < b < rows.len() implies (#[trigger] rows[a]).0 < (#[trigger] rows[b]).0 && (
        rows[a]).1 != (rows[b]).1 by {
            if b < rest.len() {
                assert(rows[a] == rest[a] && rows[b] == rest[b]);
            } else {
                assert(rows[a] == rest[a]);
                let i = choose|i: int| 0 <= i < d.len() && row_is_leaf_of(rest[a], d[i]);
                lemma_pow4_pos(segs[i].height());
                assert(segs[i].end() <= s.pos());
                assert(segs[i].is_leaf() && s.is_leaf());
                assert(segs[i].leaf_commitment() != s.leaf_commitment());
            }
        }
    }
}

/// Every hash row of a well-formed region names an aligned span of height
/// at most 24 lying wholly below the next position.
pub proof fn lemma_hash_rows_wf(
    segs: Seq<Segment>,
    next: int,
    lo: int,
    hi: int,
    base: int,
    h: int,
    min: int,
    keep: bool,
)
    requires
        region_ok(segs, next, lo, hi, base, h),
    ensures
        ({
            let rows = hash_rows(segs, next, lo, hi, base, h, min, keep);
            forall|k: int|
                0 <= k < rows.len() ==> 0 <= (#[trigger] rows[k]).1 <= 24 && (rows[k].0 % pow4(
                    rows[k].1,
                ) == 0) && 0 <= rows[k].0 && rows[k].0 + pow4(rows[k].1) <= next
        }),
    decreases h, 1int,
{
    let rows = hash_rows(segs, next, lo, hi, base, h, min, keep);
    if region_exact(segs, lo, hi, base, h) {
        assert(segs[lo].wf());
    } else if lo >= hi {
    } else if h <= 0 {
    } else {
        lemma_children_ok(segs, next, lo, hi, base, h);
        let q = pow4(h - 1);
        let m1 = first_ge(segs, lo, hi, base + q);
        let m2 = first_ge(segs, m1, hi, base + 2 * q);
        let m3 = first_ge(segs, m2, hi, base + 3 * q);
        lemma_hash_rows_wf(segs, next, lo, m1, base, h - 1, min, keep);
        lemma_hash_rows_wf(segs, next, m1, m2, base + q, h - 1, min, keep);
        lemma_hash_rows_wf(segs, next, m2, m3, base + 2 * q, h - 1, min, keep);
        lemma_hash_rows_wf(segs, next, m3, hi, base + 3 * q, h - 1, min, keep);
        let own: Seq<(int, int, Seq<u8>)> = if keep && base + pow4(h) <= next && base >= min {
            seq![(base, h, region_hash(segs, next, lo, hi, base, h))]
        } else {
            Seq::empty()
        };
        let r0 = hash_rows(segs, next, lo, m1, base, h - 1, min, keep);
        let r1 = hash_rows(segs, next, m1, m2, base + q, h - 1, min, keep);
        let r2 = hash_rows(segs, next, m2, m3, base + 2 * q, h - 1, min, keep);
        let r3 = hash_rows(segs, next, m3, hi, base + 3 * q, h - 1, min, keep);
        assert(rows == own + r0 + r1 + r2 + r3);
        assert forall|k: int|
            0 <= k < rows.len() implies 0 <= (#[trigger] rows[k]).1 <= 24 && (rows[k].0 % pow4(
            rows[k].1,
        ) == 0) && 0 <= rows[k].0 && rows[k].0 + pow4(rows[k].1) <= next by {
            let n0 = own.len();
            let n1 = n0 + r0.len();
            let n2 = n1 + r1.len();
            let n3 = n2 + r2.len();
            if k < n0 {
                assert(rows[k] == own[0]);
            } else if k < n1 {
                assert(rows[k] == r0[k - n0]);
            } else if k < n2 {
                assert(rows[k] == r1[k - n1]);
            } else if k < n3 {
                assert(rows[k] == r2[k - n2]);
            } else {
                assert(rows[k] == r3[k - n3]);
            }
        }
    }
}

/// Every witnessed leaf at or past `min` is listed in the commitment rows.
pub proof fn lemma_commitment_rows_complete(segs: Seq<Segment>, min: int, i: int)
    requires
        0 <= i < segs.len(),
        segs[i].is_leaf(),
        segs[i].pos() >= min,
    ensures
        exists|k: int|
            0 <= k < commitment_rows(segs, min).len() && row_is_leaf_of(
                #[trigger] commitment_rows(segs, min)[k],
                segs[i],
            ),
    decreases segs.len(),
{
    let rows = commitment_rows(segs, min);
    let rest = commitment_rows(segs.drop_last(), min);
    if i == segs.len() - 1 {
        assert(rows[rest.len() as int] == (segs[i].pos(), segs[i].leaf_commitment()));
        assert(row_is_leaf_of(rows[rest.len() as int], segs[i]));
    } else {
        assert(segs.drop_last()[i] == segs[i]);
        lemma_commitment_rows_complete(segs.drop_last(), min, i);
        let k = choose|k: int|
            0 <= k < rest.len() && row_is_leaf_of(#[trigger] rest[k], segs.drop_last()[i]);
        assert(rows[k] == rest[k]);
        assert(row_is_leaf_of(rows[k], segs[i]));
    }
}

/// Whether a row is the listing of a pruned span.
pub open spec fn row_is_pruned_of(row: (int, int, Seq<u8>), s: Segment) -> bool {
    !s.is_leaf() && row.0 == s.pos() && row.1 == s.height() && row.2 == s.content_hash()
}

/// With internal hashes omitted, every hash row of a region lists one of
/// its pruned spans at or past `min`.
pub proof fn lemma_hash_rows_essential(
    segs: Seq<Segment>,
    next: int,
    lo: int,
    hi: int,
    base: int,
    h: int,
    min: int,
)
    requires
        region_ok(segs, next, lo, hi, base, h),
    ensures
        ({
            let rows = hash_rows(segs, next, lo, hi, base, h, min, false);
            forall|k: int|
                0 <= k < rows.len() ==> exists|i: int|
                    lo <= i < hi && row_is_pruned_of(#[trigger] rows[k], segs[i]) && segs[i].pos()
                        >= min
        }),
    decreases h, 1int,
{
    let rows = hash_rows(segs, next, lo, hi, base, h, min, false);
    if region_exact(segs, lo, hi, base, h) {
        assert forall|k: int|
            0 <= k < rows.len() implies exists|i: int|
            lo <= i < hi && row_is_pruned_of(#[trigger] rows[k], segs[i]) && segs[i].pos()
                >= min by {
            assert(row_is_pruned_of(rows[0], segs[lo]));
        }
    } else if lo >= hi {
    } else if h <= 0 {
    } else {
        lemma_children_ok(segs, next, lo, hi, base, h);
        let q = pow4(h - 1);
        let m1 = first_ge(segs, lo, hi, base + q);
        let m2 = first_ge(segs, m1, hi, base + 2 * q);
        let m3 = first_ge(segs, m2, hi, base + 3 * q);
        lemma_hash_rows_essential(segs, next, lo, m1, base, h - 1, min);
        lemma_hash_rows_essential(segs, next, m1, m2, base + q, h - 1, min);
        lemma_hash_rows_essential(segs, next, m2, m3, base + 2 * q, h - 1, min);
        lemma_hash_rows_essential(segs, next, m3, hi, base + 3 * q, h - 1, min);
        let r0 = hash_rows(segs, next, lo, m1, base, h - 1, min, false);
        let r1 = hash_rows(segs, next, m1, m2, base + q, h - 1, min, false);
        let r2 = hash_rows(segs, next, m2, m3, base + 2 * q, h - 1, min, false);
        let r3 = hash_rows(segs, next, m3, hi, base + 3 * q, h - 1, min, false);
        assert(rows == Seq::<(int, int, Seq<u8>)>::empty() + r0 + r1 + r2 + r3);
        assert forall|k: int|
            0 <= k < rows.len() implies exists|i: int|
            lo <= i < hi && row_is_pruned_of(#[trigger] rows[k], segs[i]) && segs[i].pos()
                >= min by {
            let n1 = r0.len() as int;
            let n2 = n1 + r1.len();
            let n3 = n2 + r2.len();
            if k < n1 {
                assert(rows[k] == r0[k]);
                let i = choose|i: int|
                    lo <= i < m1 && row_is_pruned_of(#[trigger] r0[k], segs[i]) && segs[i].pos()
                        >= min;
                assert(row_is_pruned_of(rows[k], segs[i]));
            } else if k < n2 {
                assert(rows[k] == r1[k - n1]);
                let i = choose|i: int|
                    m1 <= i < m2 && row_is_pruned_of(#[trigger] r1[k - n1], segs[i])
                        && segs[i].pos() >= min;
                assert(row_is_pruned_of(rows[k], segs[i]));
            } else if k < n3 {
                assert(rows[k] == r2[k - n2]);
                let i = choose|i: int|
                    m2 <= i < m3 && row_is_pruned_of(#[trigger] r2[k - n2], segs[i])
                        && segs[i].pos() >= min;
                assert(row_is_pruned_of(rows[k], segs[i]));
            } else {
                assert(rows[k] == r3[k - n3]);
                let i = choose|i: int|
                    m3 <= i < hi && row_is_pruned_of(#[trigger] r3[k - n3], segs[i])
                        && segs[i].pos() >= min;
                assert(row_is_pruned_of(rows[k], segs[i]));
            }
        }
    }
}

/// With internal hashes omitted, every pruned span at or past `min` is
/// listed among a region's hash rows.
pub proof fn lemma_hash_rows_cover_pruned(
    segs: Seq<Segment>,
    next: int,
    lo: int,
    hi: int,
    base: int,
    h: int,
    min: int,
    i: int,
)
    requires
        region_ok(segs, next, lo, hi, base, h),
        lo <= i < hi,
        !segs[i].is_leaf(),
        segs[i].pos() >= min,
    ensures
        ({
            let rows = hash_rows(segs, next, lo, hi, base, h, min, false);
            exists|k: int| 0 <= k < rows.len() && row_is_pruned_of(#[trigger] rows[k], segs[i])
        }),
    decreases h, 1int,
{
    let rows = hash_rows(segs, next, lo, hi, base, h, min, false);
    if region_exact(segs, lo, hi, base, h) {
        assert(i == lo) by {
            if i > lo {
                lemma_pow4_pos(segs[i].height());
                assert(segs[lo].end() <= segs[i].pos());
                assert(segs[lo].end() == base + pow4(h));
            }
        }
        assert(row_is_pruned_of(rows[0], segs[i]));
    } else if h <= 0 {
        lemma_h0_exact(segs, next, lo, hi, base);
    } else {
        lemma_children_ok(segs, next, lo, hi, base, h);
        let q = pow4(h - 1);
        let m1 = first_ge(segs, lo, hi, base + q);
        let m2 = first_ge(segs, m1, hi, base + 2 * q);
        let m3 = first_ge(segs, m2, hi, base + 3 * q);
        let r0 = hash_rows(segs, next, lo, m1, base, h - 1, min, false);
        let r1 = hash_rows(segs, next, m1, m2, base + q, h - 1, min, false);
        let r2 = hash_rows(segs, next, m2, m3, base + 2 * q, h - 1, min, false);
        let r3 = hash_rows(segs, next, m3, hi, base + 3 * q, h - 1, min, false);
        assert(rows == Seq::<(int, int, Seq<u8>)>::empty() + r0 + r1 + r2 + r3);
        let n1 = r0.len() as int;
        let n2 = n1 + r1.len();
        let n3 = n2 + r2.len();
        if i < m1 {
            lemma_hash_rows_cover_pruned(segs, next, lo, m1, base, h - 1, min, i);
            let k = choose|k: int| 0 <= k < r0.len() && row_is_pruned_of(#[trigger] r0[k], segs[i]);
            assert(rows[k] == r0[k]);
        } else if i < m2 {
            lemma_hash_rows_cover_pruned(segs, next, m1, m2, base + q, h - 1, min, i);
            let k = choose|k: int| 0 <= k < r1.len() && row_is_pruned_of(#[trigger] r1[k], segs[i]);
            assert(rows[n1 + k] == r1[k]);
        } else if i < m3 {
            lemma_hash_rows_cover_pruned(segs, next, m2, m3, base + 2 * q, h - 1, min, i);
            let k = choose|k: int| 0 <= k < r2.len() && row_is_pruned_of(#[trigger] r2[k], segs[i]);
            assert(rows[n2 + k] == r2[k]);
        } else {
            lemma_hash_rows_cover_pruned(segs, next, m3, hi, base + 3 * q, h - 1, min, i);
            let k = choose|k: int| 0 <= k < r3.len() && row_is_pruned_of(#[trigger] r3[k], segs[i]);
            assert(rows[n3 + k] == r3[k]);
        }
    }
}

/// Walk a region in depth-first pre-order, appending its hash rows.
#[verifier::rlimit(80)]
fn hash_rows_walk(
    segs: &Vec<Segment>,
    next: u64,
    lo: usize,
    hi: usize,
    base: u64,
    h: u8,
    min: u64,
    keep: bool,
    out: &mut Vec<(u64, u8, Digest)>,
)
    requires
        region_ok(segs@, next as int, lo as int, hi as int, base as int, h as int),
    ensures
        rows_model(final(out)@) == rows_model(old(out)@) + hash_rows(
            segs@,
            next as int,
            lo as int,
            hi as int,
            base as int,
            h as int,
            min as int,
            keep,
        ),
    decreases h,
{
    if lo < hi {
        let s0 = &segs[lo];
        if s0.position_value() == base && s0.height_value() == h {
            if !matches!(s0, Segment::Leaf { .. }) && s0.position_value() >= min {
                out.push((s0.position_value(), s0.height_value(), s0.content_digest()));
                proof {
                    assert(rows_model(out@) =~= rows_model(old(out)@) + hash_rows(
                        segs@,
                        next as int,
                        lo as int,
                        hi as int,
                        base as int,
                        h as int,
                        min as int,
                        keep,
                    ));
                }
            } else {
                proof {
                    assert(rows_model(out@) =~= rows_model(old(out)@) + hash_rows(
                        segs@,
                        next as int,
                        lo as int,
                        hi as int,
                        base as int,
                        h as int,
                        min as int,
                        keep,
                    ));
                }
            }
            return ;
        }
    }
    if lo >= hi {
        proof {
            assert(rows_model(out@) =~= rows_model(old(out)@) + hash_rows(
                segs@,
                next as int,
                lo as int,
                hi as int,
                base as int,
                h as int,
                min as int,
                keep,
            ));
        }
        return ;
    }
    proof {
        if h == 0 {
            lemma_h0_exact(segs@, next as int, lo as int, hi as int, base as int);
        }
        assert(h >= 1);
        lemma_children_ok(segs@, next as int, lo as int, hi as int, base as int, h as int);
        lemma_pow4_pos(h as int - 1);
        lemma_pow4_pos(h as int);
    }
    let span = pow4_u64(h);
    let q = pow4_u64(h - 1);
    if keep && base + span <= next && base >= min {
        let own = region_digest(segs, next, lo, hi, base, h);
        out.push((base, h, own));
    }
    let m1 = first_ge_index(segs, lo, hi, base + q);
    let m2 = first_ge_index(segs, m1, hi, base + 2 * q);
    let m3 = first_ge_index(segs, m2, hi, base + 3 * q);
    hash_rows_walk(segs, next, lo, m1, base, h - 1, min, keep, out);
    hash_rows_walk(segs, next, m1, m2, base + q, h - 1, min, keep, out);
    hash_rows_walk(segs, next, m2, m3, base + 2 * q, h - 1, min, keep, out);
    hash_rows_walk(segs, next, m3, hi, base + 3 * q, h - 1, min, keep, out);
    proof {
        assert(rows_model(out@) =~= rows_model(old(out)@) + hash_rows(
            segs@,
            next as int,
            lo as int,
            hi as int,
            base as int,
            h as int,
            min as int,
            keep,
        ));
    }
}

} // verus!

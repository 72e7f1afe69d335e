//! An in-memory storage model for serialized trees.
//!
//! Storage holds plain rows: hash rows `(position, height, hash)`,
//! commitment rows `(position, commitment)`, and the position of the stored
//! tree — everything strictly below it has been written.  A storage adapter
//! over a real backend holds the same rows; this model is what the
//! serializer writes into and the deserializer reads from.

use vstd::prelude::*;
use crate::hash::Commitment;
use crate::hash::Digest;
use crate::hash::Forgotten;
use crate::position::pow4;
use crate::position::pow4_u64;
use crate::position::TREE_SPAN;
use crate::serialize::Options;
use crate::serialize::Serializer;
use crate::serialize::rows_model;
use crate::serialize::commitment_rows_model;
use crate::serialize::commitment_rows;
use crate::serialize::forgotten_rows;
use crate::serialize::hash_rows_of;
use crate::serialize::min_bound;
use crate::tree::Tree;

verus! {

/// In-memory storage for a serialized tree.
pub struct InMemory {
    /// The stored position: everything strictly below it has been written.
    /// `TREE_SPAN` means the stored tree is full.
    pub position: u64,
    /// The stored hash rows.
    pub hashes: Vec<(u64, u8, Digest)>,
    /// The stored commitment rows.
    pub commitments: Vec<(u64, Commitment)>,
}

/// The hash rows kept by a range deletion: those outside the range, or at
/// or above the height bound.
pub open spec fn kept_hashes(
    rows: Seq<(u64, u8, Digest)>,
    below: int,
    start: int,
    end: int,
) -> Seq<(u64, u8, Digest)>
    decreases rows.len(),
{
    if rows.len() == 0 {
        Seq::empty()
    } else {
        let rest = kept_hashes(rows.drop_last(), below, start, end);
        let r = rows.last();
        if start <= (r.0 as int) && (r.0 as int) < end && (r.1 as int) < below {
            rest
        } else {
            rest.push(r)
        }
    }
}

/// The commitment rows kept by a range deletion: those outside the range.
pub open spec fn kept_commitments(
    rows: Seq<(u64, Commitment)>,
    start: int,
    end: int,
) -> Seq<(u64, Commitment)>
    decreases rows.len(),
{
    if rows.len() == 0 {
        Seq::empty()
    } else {
        let rest = kept_commitments(rows.drop_last(), start, end);
        let r = rows.last();
        if start <= (r.0 as int) && (r.0 as int) < end {
            rest
        } else {
            rest.push(r)
        }
    }
}

impl InMemory {
    /// Empty storage: position zero, no rows.
    pub fn new() -> (store: InMemory)
        ensures
            store.position == 0,
            store.hashes@.len() == 0,
            store.commitments@.len() == 0,
    {
        InMemory { position: 0, hashes: Vec::new(), commitments: Vec::new() }
    }

    /// The stored position, or `None` if the stored tree is full.
    pub open spec fn stored_position_spec(&self) -> Option<u64> {
        if self.position < TREE_SPAN {
            Some(self.position)
        } else {
            None
        }
    }

    /// The stored position, or `None` if the stored tree is full.
    pub fn stored_position(&self) -> (p: Option<u64>)
        ensures
            p == self.stored_position_spec(),
    {
        if self.position < TREE_SPAN {
            Some(self.position)
        } else {
            None
        }
    }

    /// Record a hash row.
    pub fn add_hash(&mut self, position: u64, height: u8, hash: Digest)
        ensures
            final(self).hashes@ == old(self).hashes@.push((position, height, hash)),
            final(self).commitments@ == old(self).commitments@,
            final(self).position == old(self).position,
    {
        self.hashes.push((position, height, hash));
    }

    /// Record a commitment row.
    pub fn add_commitment(&mut self, position: u64, commitment: Commitment)
        ensures
            final(self).commitments@ == old(self).commitments@.push((position, commitment)),
            final(self).hashes@ == old(self).hashes@,
            final(self).position == old(self).position,
    {
        self.commitments.push((position, commitment));
    }

    /// Delete the rows of the position range `[start, end)`: every
    /// commitment row in it, and every hash row in it of height strictly
    /// below `below_height`.
    pub fn delete_range(&mut self, below_height: u8, start: u64, end: u64)
        ensures
            final(self).hashes@ == kept_hashes(
                old(self).hashes@,
                below_height as int,
                start as int,
                end as int,
            ),
            final(self).commitments@ == kept_commitments(
                old(self).commitments@,
                start as int,
                end as int,
            ),
            final(self).position == old(self).position,
    {
        let n = self.hashes.len();
        let mut hs: Vec<(u64, u8, Digest)> = Vec::new();
        let mut i: usize = 0;
        while i < n
            invariant
                n == self.hashes@.len(),
                i <= n,
                *self == *old(self),
                hs@ == kept_hashes(
                    self.hashes@.take(i as int),
                    below_height as int,
                    start as int,
                    end as int,
                ),
            decreases n - i,
        {
            proof {
                assert(self.hashes@.take(i as int + 1).drop_last() =~= self.hashes@.take(i as int));
                assert(self.hashes@.take(i as int + 1).last() == self.hashes@[i as int]);
            }
            let r = self.hashes[i];
            if !(start <= r.0 && r.0 < end && r.1 < below_height) {
                hs.push(r);
            }
            i = i + 1;
        }
        proof {
            assert(self.hashes@.take(n as int) =~= self.hashes@);
        }
        let m = self.commitments.len();
        let mut cs: Vec<(u64, Commitment)> = Vec::new();
        let mut j: usize = 0;
        while j < m
            invariant
                m == self.commitments@.len(),
                j <= m,
                *self == *old(self),
                cs@ == kept_commitments(
                    self.commitments@.take(j as int),
                    start as int,
                    end as int,
                ),
            decreases m - j,
        {
            proof {
                assert(self.commitments@.take(j as int + 1).drop_last() =~= self.commitments@.take(
                    j as int,
                ));
                assert(self.commitments@.take(j as int + 1).last() == self.commitments@[j as int]);
            }
            let r = self.commitments[j];
            if !(start <= r.0 && r.0 < end) {
                cs.push(r);
            }
            j = j + 1;
        }
        proof {
            assert(self.commitments@.take(m as int) =~= self.commitments@);
        }
        self.hashes = hs;
        self.commitments = cs;
    }

    /// Set the stored position; `None` records a full tree.
    pub fn set_position(&mut self, position: Option<u64>)
        requires
            position matches Some(p) ==> p <= TREE_SPAN,
        ensures
            final(self).hashes@ == old(self).hashes@,
            final(self).commitments@ == old(self).commitments@,
            position matches Some(p) ==> final(self).position == p,
            position is None ==> final(self).position == TREE_SPAN,
    {
        self.position = match position {
            Some(p) => p,
            None => TREE_SPAN,
        };
    }
}

/// The hash rows left after applying, in order, the range deletion of each
/// forgotten row: each deletes the hash rows of height below its own within
/// its span.
pub open spec fn hashes_after_deletes(
    rows: Seq<(u64, u8, Digest)>,
    frows: Seq<(int, int, Seq<u8>)>,
) -> Seq<(u64, u8, Digest)>
    decreases frows.len(),
{
    if frows.len() == 0 {
        rows
    } else {
        let f = frows.last();
        kept_hashes(hashes_after_deletes(rows, frows.drop_last()), f.1, f.0, f.0 + pow4(f.1))
    }
}

/// The commitment rows left after applying, in order, the range deletion of
/// each forgotten row: each deletes the commitment rows within its span.
pub open spec fn commitments_after_deletes(
    rows: Seq<(u64, Commitment)>,
    frows: Seq<(int, int, Seq<u8>)>,
) -> Seq<(u64, Commitment)>
    decreases frows.len(),
{
    if frows.len() == 0 {
        rows
    } else {
        let f = frows.last();
        kept_commitments(commitments_after_deletes(rows, frows.drop_last()), f.0, f.0 + pow4(f.1))
    }
}

/// Serialize the changes of a tree into storage: delete what was newly
/// forgotten (recording each pruned span's boundary hash), add the new hash
/// and commitment rows, and update the stored position.
///
/// The minimum position of the pass is the storage's own position, and the
/// caller supplies the forgotten version as of the previous pass.  The
/// final contents are fixed exactly: the old rows filtered by the range
/// deletion of each forgotten span in turn, then the forgotten spans'
/// boundary hashes, then the new hash rows; and the surviving old
/// commitment rows followed by the new ones.
pub fn write_to_store(options: Options, last_forgotten: Forgotten, store: &mut InMemory, tree: &Tree)
    requires
        tree.wf(),
    ensures
        final(store).position == tree.next,
        ({
            let min = min_bound(old(store).stored_position_spec());
            let hrows = hash_rows_of(tree.segments@, tree.next as int, min, options.keep);
            let crows = commitment_rows(tree.segments@, min);
            let frows = forgotten_rows(tree.segments@, min, last_forgotten.0 as int);
            &&& rows_model(final(store).hashes@) == rows_model(
                hashes_after_deletes(old(store).hashes@, frows),
            ) + frows + hrows
            &&& commitment_rows_model(final(store).commitments@) == commitment_rows_model(
                commitments_after_deletes(old(store).commitments@, frows),
            ) + crows
        }),
{
    let ghost min = min_bound(old(store).stored_position_spec());
    let ghost hrows_spec = hash_rows_of(tree.segments@, tree.next as int, min, options.keep);
    let ghost crows_spec = commitment_rows(tree.segments@, min);
    let ghost frows_spec = forgotten_rows(tree.segments@, min, last_forgotten.0 as int);
    let mut serializer = Serializer::new();
    serializer.position(store.stored_position());
    serializer.last_forgotten(last_forgotten);
    if options.keep {
        serializer.keep_internal();
    } else {
        serializer.omit_internal();
    }
    let frows = serializer.forgotten_iter(tree);
    let hrows = serializer.hashes_iter(tree);
    let crows = serializer.commitments_iter(tree);
    proof {
        lemma_forgotten_rows_bounds(tree.segments@, tree.next as int, min, last_forgotten.0 as int);
        assert(hashes_after_deletes(old(store).hashes@, frows_spec.take(0)) =~= old(
            store,
        ).hashes@);
        assert(commitments_after_deletes(old(store).commitments@, frows_spec.take(0)) =~= old(
            store,
        ).commitments@);
    }

    // First delete every newly forgotten span, so that nothing added below
    // is deleted again.
    let nf = frows.len();
    let mut i: usize = 0;
    while i < nf
        invariant
            nf == frows@.len(),
            i <= nf,
            rows_model(frows@) == frows_spec,
            forall|k: int|
                0 <= k < frows_spec.len() ==> 0 <= (#[trigger] frows_spec[k]).1 <= 24 && 0
                    <= frows_spec[k].0 && frows_spec[k].0 + pow4(frows_spec[k].1) <= TREE_SPAN,
            store.position == old(store).position,
            store.hashes@ == hashes_after_deletes(old(store).hashes@, frows_spec.take(i as int)),
            store.commitments@ == commitments_after_deletes(
                old(store).commitments@,
                frows_spec.take(i as int),
            ),
        decreases nf - i,
    {
        let (p, h, _d) = frows[i];
        proof {
            assert(rows_model(frows@)[i as int] == frows_spec[i as int]);
            assert(frows_spec[i as int].1 <= 24);
            assert(frows_spec[i as int].0 + pow4(frows_spec[i as int].1) <= TREE_SPAN);
        }
        let span = pow4_u64(h);
        store.delete_range(h, p, p + span);
        proof {
            assert(frows_spec.take(i as int + 1).drop_last() =~= frows_spec.take(i as int));
            assert(frows_spec.take(i as int + 1).last() == frows_spec[i as int]);
        }
        i = i + 1;
    }
    proof {
        assert(frows_spec.take(nf as int) =~= frows_spec);
    }
    let ghost deleted_hashes = hashes_after_deletes(old(store).hashes@, frows_spec);
    let ghost deleted_commitments = commitments_after_deletes(old(store).commitments@, frows_spec);

    // Record the boundary hash of every forgotten span, so that the pruned
    // region can still be rebuilt.
    let mut i: usize = 0;
    while i < nf
        invariant
            nf == frows@.len(),
            i <= nf,
            rows_model(frows@) == frows_spec,
            store.position == old(store).position,
            store.commitments@ == deleted_commitments,
            rows_model(store.hashes@) == rows_model(deleted_hashes) + frows_spec.take(i as int),
        decreases nf - i,
    {
        let (p, h, d) = frows[i];
        let ghost prev = store.hashes@;
        store.add_hash(p, h, d);
        proof {
            assert(rows_model(frows@)[i as int] == frows_spec[i as int]);
            assert(rows_model(store.hashes@) =~= rows_model(prev).push(
                (p as int, h as int, d@),
            ));
            assert((rows_model(deleted_hashes) + frows_spec.take(i as int)).push(
                frows_spec[i as int],
            ) =~= rows_model(deleted_hashes) + frows_spec.take(i as int + 1));
        }
        i = i + 1;
    }
    proof {
        assert(frows_spec.take(nf as int) =~= frows_spec);
    }

    // Add the new hash rows.
    let nh = hrows.len();
    let mut i: usize = 0;
    while i < nh
        invariant
            nh == hrows@.len(),
            i <= nh,
            rows_model(hrows@) == hrows_spec,
            store.position == old(store).position,
            store.commitments@ == deleted_commitments,
            rows_model(store.hashes@) == rows_model(deleted_hashes) + frows_spec
                + hrows_spec.take(i as int),
        decreases nh - i,
    {
        let (p, h, d) = hrows[i];
        let ghost prev = store.hashes@;
        store.add_hash(p, h, d);
        proof {
            assert(rows_model(hrows@)[i as int] == hrows_spec[i as int]);
            assert(rows_model(store.hashes@) =~= rows_model(prev).push(
                (p as int, h as int, d@),
            ));
            assert((rows_model(deleted_hashes) + frows_spec + hrows_spec.take(i as int)).push(
                hrows_spec[i as int],
            ) =~= rows_model(deleted_hashes) + frows_spec + hrows_spec.take(i as int + 1));
        }
        i = i + 1;
    }
    proof {
        assert(hrows_spec.take(nh as int) =~= hrows_spec);
    }

    // Add the new commitment rows.
    let nc = crows.len();
    let mut i: usize = 0;
    while i < nc
        invariant
            nc == crows@.len(),
            i <= nc,
            commitment_rows_model(crows@) == crows_spec,
            store.position == old(store).position,
            rows_model(store.hashes@) == rows_model(deleted_hashes) + frows_spec + hrows_spec,
            commitment_rows_model(store.commitments@) == commitment_rows_model(
                deleted_commitments,
            ) + crows_spec.take(i as int),
        decreases nc - i,
    {
        let (p, c) = crows[i];
        let ghost prev = store.commitments@;
        store.add_commitment(p, c);
        proof {
            assert(commitment_rows_model(crows@)[i as int] == crows_spec[i as int]);
            assert(commitment_rows_model(store.commitments@) =~= commitment_rows_model(
                prev,
            ).push((p as int, c@)));
            assert((commitment_rows_model(deleted_commitments) + crows_spec.take(i as int)).push(
                crows_spec[i as int],
            ) =~= commitment_rows_model(deleted_commitments) + crows_spec.take(i as int + 1));
        }
        i = i + 1;
    }
    proof {
        assert(crows_spec.take(nc as int) =~= crows_spec);
    }

    // Record the tree's position.
    store.set_position(tree.position());
}

/// Bounds on forgotten rows: each names a well-formed span of the tree.
proof fn lemma_forgotten_rows_bounds(segs: Seq<crate::segment::Segment>, next: int, min: int, last: int)
    requires
        crate::segment::segs_wf(segs, next),
    ensures
        forall|k: int|
            0 <= k < forgotten_rows(segs, min, last).len() ==> 0 <= (
            #[trigger] forgotten_rows(segs, min, last)[k]).1 <= 24 && 0 <= forgotten_rows(
                segs,
                min,
                last,
            )[k].0 && forgotten_rows(segs, min, last)[k].0 + pow4(
                forgotten_rows(segs, min, last)[k].1,
            ) <= TREE_SPAN,
    decreases segs.len(),
{
    let rows = forgotten_rows(segs, min, last);
    if segs.len() > 0 {
        let d = segs.drop_last();
        assert(forall|i: int| 0 <= i < d.len() ==> #[trigger] d[i] == segs[i]);
        assert(crate::segment::segs_wf(d, next));
        lemma_forgotten_rows_bounds(d, next, min, last);
        let rest = forgotten_rows(d, min, last);
        let s = segs.last();
        assert(s.wf());
        assert forall|k: int|
            0 <= k < rows.len() implies 0 <= (#[trigger] rows[k]).1 <= 24 && 0 <= rows[k].0
            && rows[k].0 + pow4(rows[k].1) <= TREE_SPAN by {
            if k < rest.len() {
                assert(rows[k] == rest[k]);
            } else {
                assert(rows[k] == (s.pos(), s.height(), s.content_hash()));
            }
        }
    }
}

} // verus!

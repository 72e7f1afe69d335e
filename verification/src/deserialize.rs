//! Rebuilding a tree from storage.
//!
//! The rows of a store determine a tree: the commitment rows become
//! witnessed leaves, the hash rows become pruned spans, and the stored
//! position fixes the frontier.  Rows may arrive in any order; a hash row
//! that covers rows already placed is a redundant cached hash and is
//! ignored.  A store whose rows cannot describe a tree — a row at or past
//! the stored position, a misaligned or over-tall hash row, a position,
//! commitment or span recorded twice, or an uncovered run of positions
//! that no block or epoch seal could have skipped — is corrupt.

use vstd::prelude::*;
use crate::hash::Commitment;
use crate::hash::Digest;
use crate::hash::bytes32_eq;
use crate::position::pow4;
use crate::position::pow4_u64;
use crate::position::lemma_pow4_pos;
use crate::position::lemma_pow4_increases;
use crate::position::lemma_span_values;
use crate::position::TREE_SPAN;
use crate::position::BLOCK_SPAN;
use crate::segment::Segment;
use crate::segment::segs_wf;
use crate::segment::first_ge;
use crate::segment::first_ge_index;
use crate::segment::lemma_first_ge_props;
use crate::segment::lemma_wf_pos_increasing;
use crate::segment::lemma_aligned_step;
use crate::segment::lemma_pow4_align;
use crate::storage::InMemory;
use crate::tree::Tree;
use vstd::arithmetic::div_mod::lemma_mod_multiples_basic;

verus! {

/// Why a store could not be rebuilt into a tree.
#[derive(Clone, Copy, Debug, PartialEq, Eq)]
pub enum ReadError {
    /// The store's rows cannot describe a tree.
    Corrupt,
}

/// The commitment rows of a store are valid when each lies strictly below
/// the stored position, and no position or commitment appears twice.
pub open spec fn commitment_rows_valid(rows: Seq<(u64, Commitment)>, position: int) -> bool {
    &&& forall|i: int| 0 <= i < rows.len() ==> (#[trigger] rows[i]).0 + 1 <= position
    &&& forall|i: int, j: int|
        0 <= i < j < rows.len() ==> (#[trigger] rows[i]).0 != (#[trigger] rows[j]).0 && rows[i].1@
            != rows[j].1@
}

/// The hash rows of a store are valid when each names a span inside the
/// tree, aligned to its height, lying wholly below the stored position.
pub open spec fn hash_rows_valid(rows: Seq<(u64, u8, Digest)>, position: int) -> bool {
    forall|i: int|
        0 <= i < rows.len() ==> (#[trigger] rows[i]).1 <= 24 && ((rows[i].0 as int) % pow4(
            rows[i].1 as int,
        ) == 0) && rows[i].0 + pow4(rows[i].1 as int) <= position
}

/// A store is valid when its position is inside the tree and all its rows
/// are valid against it.
pub open spec fn store_valid(store: InMemory) -> bool {
    &&& store.position <= TREE_SPAN
    &&& commitment_rows_valid(store.commitments@, store.position as int)
    &&& hash_rows_valid(store.hashes@, store.position as int)
}

/// Whether a hash row stands for a span of its own: no commitment row and
/// no other hash row lies within its span.  A row that is not essential is
/// a redundant cached hash over contents recorded elsewhere, and
/// contributes no contents itself.
pub open spec fn hash_row_essential(store: InMemory, j: int) -> bool {
    &&& !(exists|k: int|
        0 <= k < store.commitments@.len() && store.hashes@[j].0 <= (
        #[trigger] store.commitments@[k]).0 && (store.commitments@[k].0 as int) < store.hashes@[j].0
            + pow4(store.hashes@[j].1 as int))
    &&& !(exists|k: int|
        0 <= k < store.hashes@.len() && k != j && store.hashes@[j].0 <= (
        #[trigger] store.hashes@[k]).0 && store.hashes@[k].0 + pow4(store.hashes@[k].1 as int)
            <= store.hashes@[j].0 + pow4(store.hashes@[j].1 as int))
}

/// Whether a position of the stored tree carries contents: a commitment
/// row, or the span of an essential hash row.
pub open spec fn position_covered(store: InMemory, p: int) -> bool {
    ||| exists|k: int| 0 <= k < store.commitments@.len() && (#[trigger] store.commitments@[k]).0 == p
    ||| exists|j: int|
        0 <= j < store.hashes@.len() && hash_row_essential(store, j)
            && (#[trigger] store.hashes@[j]).0 <= p
            && p < store.hashes@[j].0 + pow4(store.hashes@[j].1 as int)
}

/// A store is consistent when no span is recorded twice and every
/// uncovered run of positions below the stored position is explained by
/// sealing: a gap can only arise from ending a block or an epoch, which
/// advances the position to a tier boundary, so every uncovered run must
/// end on a block boundary.  A store that fails this records a tree no
/// insertion history can have produced, and is corrupt.
pub open spec fn store_consistent(store: InMemory) -> bool {
    &&& forall|i: int, j: int|
        0 <= i < j < store.hashes@.len() ==> !((#[trigger] store.hashes@[i]).0 == (
        #[trigger] store.hashes@[j]).0 && store.hashes@[i].1 == store.hashes@[j].1)
    &&& forall|b: int|
        0 < b <= store.position && !position_covered(store, b - 1) && (b == store.position
            || position_covered(store, b)) ==> #[trigger] (b % (BLOCK_SPAN as int)) == 0
}

/// Whether the segments hold a witnessed leaf for commitment bytes `c` at
/// position `p`.
pub open spec fn has_leaf_at(segs: Seq<Segment>, p: int, c: Seq<u8>) -> bool {
    exists|i: int|
        0 <= i < segs.len() && (#[trigger] segs[i]).is_leaf() && segs[i].pos() == p
            && segs[i].leaf_commitment() == c
}

/// Whether the segments hold a witnessed leaf for commitment bytes `c` at
/// any position.
pub open spec fn has_leaf_at_any(segs: Seq<Segment>, c: Seq<u8>) -> bool {
    exists|i: int|
        0 <= i < segs.len() && (#[trigger] segs[i]).is_leaf() && segs[i].leaf_commitment() == c
}

/// Whether a segment is the witnessed leaf of a commitment row.
pub open spec fn leaf_from_row(s: Segment, row: (u64, Commitment)) -> bool {
    s.is_leaf() && s.pos() == row.0 as int && s.leaf_commitment() == row.1@
}

/// Whether a segment is the pruned span of a hash row.
pub open spec fn pruned_from_row(s: Segment, row: (u64, u8, Digest)) -> bool {
    !s.is_leaf() && s.pos() == row.0 as int && s.height() == row.1 as int && s.content_hash()
        == row.2@ && s.stamp_of() == 0
}

/// Whether some segment accounts for the span of a hash row: the row
/// itself, or contents placed inside its span (so that the row is a
/// redundant cached hash).
pub open spec fn row_covered(segs: Seq<Segment>, row: (u64, u8, Digest)) -> bool {
    exists|w: int|
        0 <= w < segs.len() && row.0 as int <= (#[trigger] segs[w]).pos() && segs[w].end()
            <= row.0 + pow4(row.1 as int)
}

/// Whether a segment is the direct reading of one of the store's rows:
/// rebuilding invents nothing else.
pub open spec fn segment_from_rows(
    s: Segment,
    crows: Seq<(u64, Commitment)>,
    hrows: Seq<(u64, u8, Digest)>,
) -> bool {
    if s.is_leaf() {
        exists|k: int| 0 <= k < crows.len() && leaf_from_row(s, crows[k])
    } else {
        exists|k: int| 0 <= k < hrows.len() && pruned_from_row(s, hrows[k])
    }
}

/// Inserting a segment keeps every leaf already placed, and every element
/// of the result is either the inserted segment or an element of the
/// original.
proof fn lemma_insert_preserves(
    before: Seq<Segment>,
    seg: Segment,
    idx: int,
    rows: Seq<(u64, Commitment)>,
    upto: int,
)
    requires
        0 <= idx <= before.len(),
        0 <= upto <= rows.len(),
        forall|k: int|
            0 <= k < upto ==> has_leaf_at(before, (#[trigger] rows[k]).0 as int, rows[k].1@),
    ensures
        forall|k: int|
            0 <= k < upto ==> has_leaf_at(
                before.insert(idx, seg),
                (#[trigger] rows[k]).0 as int,
                rows[k].1@,
            ),
        forall|a: int|
            0 <= a < before.insert(idx, seg).len() ==> (#[trigger] before.insert(idx, seg)[a])
                == seg || exists|x: int|
                0 <= x < before.len() && before.insert(idx, seg)[a] == before[x],
{
    before.insert_ensures(idx, seg);
    let after = before.insert(idx, seg);
    assert forall|k: int|
        0 <= k < upto implies has_leaf_at(after, (#[trigger] rows[k]).0 as int, rows[k].1@) by {
        let w = choose|w: int|
            0 <= w < before.len() && (#[trigger] before[w]).is_leaf()
                && before[w].pos() == rows[k].0 as int
                && before[w].leaf_commitment() == rows[k].1@;
        if w < idx {
            assert(after[w] == before[w]);
        } else {
            assert(after[w + 1] == before[w]);
        }
    }
    assert forall|a: int|
        0 <= a < after.len() implies (#[trigger] after[a]) == seg || exists|x: int|
        0 <= x < before.len() && after[a] == before[x] by {
        if a < idx {
            assert(after[a] == before[a]);
        } else if a > idx {
            assert(after[a] == before[a - 1]);
        }
    }
}

/// Round trip, validity half: a store holding exactly a from-the-start
/// serialization of a well-formed tree — the tree's commitment rows, its
/// hash rows, and its position — is valid.  [`from_reader`] additionally
/// requires the store to be consistent ([`store_consistent`]: no span
/// recorded twice, gaps seal-consistent), which such serializations have —
/// the round-trip tests exercise it — but which is not proved here.  On a
/// valid, consistent store, [`from_reader`]'s contract makes the rebuilt
/// tree witness exactly the serialized tree's un-forgotten commitments,
/// each at its original position.
pub proof fn lemma_fresh_serialization_valid(tree: Tree, store: InMemory, keep: bool)
    requires
        tree.wf(),
        store.position == tree.next,
        crate::serialize::commitment_rows_model(store.commitments@)
            == crate::serialize::commitment_rows(tree.segments@, 0),
        crate::serialize::rows_model(store.hashes@) == crate::serialize::hash_rows_of(
            tree.segments@,
            tree.next as int,
            0,
            keep,
        ),
    ensures
        store_valid(store),
{
    let segs = tree.segments@;
    let next = tree.next as int;
    crate::serialize::lemma_commitment_rows_faithful(segs, next, 0);
    let crows = crate::serialize::commitment_rows(segs, 0);
    let cmodel = crate::serialize::commitment_rows_model(store.commitments@);
    assert forall|i: int|
        0 <= i < store.commitments@.len() implies (#[trigger] store.commitments@[i]).0 + 1
        <= store.position by {
        assert(cmodel[i] == crows[i]);
    }
    assert forall|i: int, j: int|
        0 <= i < j < store.commitments@.len() implies (#[trigger] store.commitments@[i]).0 != (
    #[trigger] store.commitments@[j]).0 && store.commitments@[i].1@ != store.commitments@[j].1@ by {
        assert(cmodel[i] == crows[i] && cmodel[j] == crows[j]);
    }
    proof_hash_rows_region_ok(tree);
    crate::serialize::lemma_hash_rows_wf(segs, next, 0, segs.len() as int, 0, 24, 0, keep);
    let hrows = crate::serialize::hash_rows_of(segs, next, 0, keep);
    let hmodel = crate::serialize::rows_model(store.hashes@);
    assert forall|i: int|
        0 <= i < store.hashes@.len() implies (#[trigger] store.hashes@[i]).1 <= 24 && ((
    store.hashes@[i].0 as int) % pow4(store.hashes@[i].1 as int) == 0) && store.hashes@[i].0 + pow4(
        store.hashes@[i].1 as int,
    ) <= store.position by {
        assert(hmodel[i] == hrows[i]);
    }
}

/// The whole position space is a well-formed region of any well-formed
/// tree.
proof fn proof_hash_rows_region_ok(tree: Tree)
    requires
        tree.wf(),
    ensures
        crate::segment::region_ok(
            tree.segments@,
            tree.next as int,
            0,
            tree.segments@.len() as int,
            0,
            24,
        ),
{
    lemma_span_values();
    lemma_pow4_pos(24);
    vstd::arithmetic::div_mod::lemma_small_mod(0, pow4(24) as nat);
}


/// Placing the next commitment row as a leaf at its sorted index keeps the
/// store of segments well formed, keeps every row already placed, and
/// places the new one.
#[verifier::rlimit(100)]
#[verifier::spinoff_prover]
proof fn lemma_place_leaf(
    before: Seq<Segment>,
    rows: Seq<(u64, Commitment)>,
    i: int,
    idx: int,
    position: int,
)
    requires
        commitment_rows_valid(rows, position),
        position <= TREE_SPAN,
        segs_wf(before, position),
        0 <= i < rows.len(),
        forall|a: int|
            0 <= a < before.len() ==> exists|k: int|
                0 <= k < i && leaf_from_row(#[trigger] before[a], rows[k]),
        forall|k: int|
            0 <= k < i ==> has_leaf_at(before, (#[trigger] rows[k]).0 as int, rows[k].1@),
        idx == first_ge(before, 0, before.len() as int, rows[i].0 as int),
    ensures
        ({
            let seg = (Segment::Leaf { position: rows[i].0, commitment: rows[i].1 });
            let after = before.insert(idx, seg);
            &&& segs_wf(after, position)
            &&& forall|a: int|
                0 <= a < after.len() ==> exists|k: int|
                    0 <= k < i + 1 && leaf_from_row(#[trigger] after[a], rows[k])
            &&& forall|k: int|
                0 <= k < i + 1 ==> has_leaf_at(after, (#[trigger] rows[k]).0 as int, rows[k].1@)
        }),
{
    let seg = (Segment::Leaf { position: rows[i].0, commitment: rows[i].1 });
    let p = rows[i].0 as int;
    lemma_wf_pos_increasing(before, position);
    lemma_first_ge_props(before, 0, before.len() as int, p);
    assert(0 <= idx <= before.len());
    before.insert_ensures(idx, seg);
    let after = before.insert(idx, seg);
    lemma_insert_preserves(before, seg, idx, rows, i);
    assert(seg.pos() % seg.span() == 0) by {
        lemma_mod_multiples_basic(seg.pos(), 1);
        assert(seg.pos() * 1 == seg.pos());
    }
    // Every existing leaf sits at a different row position.
    assert forall|x: int| 0 <= x < before.len() implies (#[trigger] before[x]).pos() != p by {
        let k = choose|k: int| 0 <= k < i && leaf_from_row(#[trigger] before[x], rows[k]);
        assert(rows[k].0 != rows[i].0);
    }
    // Sortedness after the insert.
    assert forall|a: int, b: int|
        0 <= a < b < after.len() implies (#[trigger] after[a]).end() <= (
    #[trigger] after[b]).pos() by {
        if b < idx {
        } else if a > idx {
        } else if a == idx {
            assert(after[b] == before[b - 1]);
            assert(before[b - 1].pos() >= p);
            assert(before[b - 1].pos() != p);
        } else if b == idx {
            assert(after[a] == before[a]);
            assert(before[a].pos() < p);
        } else {
            assert(after[a] == before[a] && after[b] == before[b - 1]);
            if a < b - 1 {
            } else {
                assert(before[a].pos() < p && before[b - 1].pos() > p);
            }
        }
    }
    // No commitment appears twice after the insert.
    assert forall|a: int, b: int|
        0 <= a < b < after.len() && (#[trigger] after[a]).is_leaf() && (
    #[trigger] after[b]).is_leaf() implies after[a].leaf_commitment()
        != after[b].leaf_commitment() by {
        if a == idx || b == idx {
            let other = if a == idx {
                after[b]
            } else {
                after[a]
            };
            let x = choose|x: int| 0 <= x < before.len() && other == before[x];
            let k = choose|k: int| 0 <= k < i && leaf_from_row(#[trigger] before[x], rows[k]);
            assert(rows[k].1@ != rows[i].1@);
        }
    }
    // Every element of the result is a placed row.
    assert forall|a: int|
        0 <= a < after.len() implies exists|k: int|
        0 <= k < i + 1 && leaf_from_row(#[trigger] after[a], rows[k]) by {
        if a == idx {
            assert(leaf_from_row(after[a], rows[i]));
        } else if a < idx {
            let k = choose|k: int| 0 <= k < i && leaf_from_row(#[trigger] before[a], rows[k]);
            assert(leaf_from_row(after[a], rows[k]));
        } else {
            let k = choose|k: int| 0 <= k < i && leaf_from_row(#[trigger] before[a - 1], rows[k]);
            assert(leaf_from_row(after[a], rows[k]));
        }
    }
    // The new row is placed.
    assert(after[idx] == seg);
    assert(has_leaf_at(after, rows[i].0 as int, rows[i].1@));
}


/// A hash row whose span already holds a placed segment of no greater
/// height is accounted for by that segment.
proof fn lemma_skip_covers(
    before: Seq<Segment>,
    hrows: Seq<(u64, u8, Digest)>,
    i: int,
    idx: int,
    position: int,
)
    requires
        hash_rows_valid(hrows, position),
        segs_wf(before, position),
        0 <= i < hrows.len(),
        forall|a: int| 0 <= a < before.len() ==> (#[trigger] before[a]).height() <= hrows[i].1 as int,
        idx == first_ge(before, 0, before.len() as int, hrows[i].0 as int),
        0 <= idx < before.len(),
        before[idx].pos() < hrows[i].0 + pow4(hrows[i].1 as int),
    ensures
        row_covered(before, hrows[i]),
{
    let p = hrows[i].0 as int;
    let h = hrows[i].1 as int;
    let span = pow4(h);
    let s = before[idx];
    lemma_pow4_pos(h);
    lemma_pow4_pos(s.height());
    lemma_wf_pos_increasing(before, position);
    lemma_first_ge_props(before, 0, before.len() as int, p);
    assert(p <= s.pos());
    // The found segment also ends within the row's span: its span divides
    // the row's, and both ends are aligned to it.
    lemma_pow4_align(p, s.height(), h);
    assert(span % s.span() == 0) by {
        lemma_mod_multiples_basic(1, span);
        assert(1 * span == span);
        lemma_pow4_align(span, s.height(), h);
    }
    crate::segment::lemma_mod_sum_zero(p, span, s.span());
    lemma_aligned_step(s.pos(), p + span, s.span());
    assert(s.end() <= p + span);
    assert(row_covered(before, hrows[i]));
}

/// Placing a hash row as a pruned span at its sorted index — when nothing
/// already placed lies within its span — keeps the store of segments well
/// formed, keeps every leaf already placed, and adds nothing that is not a
/// row.
#[verifier::rlimit(100)]
#[verifier::spinoff_prover]
proof fn lemma_place_pruned(
    before: Seq<Segment>,
    hrows: Seq<(u64, u8, Digest)>,
    crows: Seq<(u64, Commitment)>,
    i: int,
    idx: int,
    position: int,
)
    requires
        hash_rows_valid(hrows, position),
        position <= TREE_SPAN,
        segs_wf(before, position),
        0 <= i < hrows.len(),
        forall|a: int| 0 <= a < before.len() ==> (#[trigger] before[a]).height() <= hrows[i].1 as int,
        forall|a: int| 0 <= a < before.len() ==> (#[trigger] before[a]).stamp_of() == 0,
        forall|a: int|
            0 <= a < before.len() ==> segment_from_rows(#[trigger] before[a], crows, hrows),
        forall|k: int|
            0 <= k < crows.len() ==> has_leaf_at(before, (#[trigger] crows[k]).0 as int, crows[k].1@),
        forall|c: Seq<u8>|
            has_leaf_at_any(before, c) ==> exists|k: int|
                0 <= k < crows.len() && (#[trigger] crows[k]).1@ == c,
        idx == first_ge(before, 0, before.len() as int, hrows[i].0 as int),
        idx == before.len() || before[idx].pos() >= hrows[i].0 + pow4(hrows[i].1 as int),
    ensures
        ({
            let seg = (Segment::Pruned {
                position: hrows[i].0,
                height: hrows[i].1,
                hash: hrows[i].2,
                stamp: 0,
            });
            let after = before.insert(idx, seg);
            &&& segs_wf(after, position)
            &&& forall|a: int|
                0 <= a < after.len() ==> (#[trigger] after[a]).height() <= hrows[i].1 as int
            &&& forall|a: int| 0 <= a < after.len() ==> (#[trigger] after[a]).stamp_of() == 0
            &&& forall|a: int|
                0 <= a < after.len() ==> segment_from_rows(#[trigger] after[a], crows, hrows)
            &&& forall|k: int|
                0 <= k < crows.len() ==> has_leaf_at(after, (#[trigger] crows[k]).0 as int, crows[k].1@)
            &&& forall|c: Seq<u8>|
                has_leaf_at_any(after, c) ==> exists|k: int|
                    0 <= k < crows.len() && (#[trigger] crows[k]).1@ == c
        }),
{
    let seg = (Segment::Pruned {
        position: hrows[i].0,
        height: hrows[i].1,
        hash: hrows[i].2,
        stamp: 0,
    });
    let p = hrows[i].0 as int;
    let h = hrows[i].1 as int;
    let span = pow4(h);
    lemma_pow4_pos(h);
    lemma_wf_pos_increasing(before, position);
    lemma_first_ge_props(before, 0, before.len() as int, p);
    assert(0 <= idx <= before.len());
    before.insert_ensures(idx, seg);
    let after = before.insert(idx, seg);
    lemma_insert_preserves(before, seg, idx, crows, crows.len() as int);
    // Sortedness after the insert.
    assert forall|a: int, b: int|
        0 <= a < b < after.len() implies (#[trigger] after[a]).end() <= (
    #[trigger] after[b]).pos() by {
        if b < idx {
        } else if a > idx {
        } else if a == idx {
            assert(after[b] == before[b - 1]);
            assert(before[b - 1].pos() >= p);
            if b - 1 == idx {
                assert(before[idx].pos() >= p + span);
            } else {
                assert(before[idx].end() <= before[b - 1].pos());
                assert(before[idx].pos() >= p + span);
                lemma_pow4_pos(before[idx].height());
            }
        } else if b == idx {
            assert(after[a] == before[a]);
            let s = before[a];
            assert(s.pos() < p);
            lemma_pow4_align(p, s.height(), h);
            lemma_pow4_pos(s.height());
            lemma_aligned_step(s.pos(), p, s.span());
        } else {
            assert(after[a] == before[a] && after[b] == before[b - 1]);
            if a < b - 1 {
            } else {
                let s = before[a];
                assert(s.pos() < p);
                lemma_pow4_align(p, s.height(), h);
                lemma_pow4_pos(s.height());
                lemma_aligned_step(s.pos(), p, s.span());
                assert(before[idx].pos() >= p + span);
            }
        }
    }
    // No pair of witnessed leaves repeats a commitment.
    assert forall|a: int, b: int|
        0 <= a < b < after.len() && (#[trigger] after[a]).is_leaf() && (
    #[trigger] after[b]).is_leaf() implies after[a].leaf_commitment()
        != after[b].leaf_commitment() by {
        if a == idx || b == idx {
            assert(!seg.is_leaf());
        }
    }
    // Everything present is a row; heights and stamps stay bounded.
    assert forall|a: int|
        0 <= a < after.len() implies segment_from_rows(#[trigger] after[a], crows, hrows)
        && after[a].height() <= h && after[a].stamp_of() == 0 by {
        if a == idx {
            assert(pruned_from_row(seg, hrows[i]));
        } else if a < idx {
            assert(after[a] == before[a]);
        } else {
            assert(after[a] == before[a - 1]);
        }
    }
    // No witnessed commitment appears beyond the commitment rows.
    assert forall|c: Seq<u8>|
        has_leaf_at_any(after, c) implies exists|k: int|
        0 <= k < crows.len() && (#[trigger] crows[k]).1@ == c by {
        let wdx = choose|wdx: int|
            0 <= wdx < after.len() && (#[trigger] after[wdx]).is_leaf()
                && after[wdx].leaf_commitment() == c;
        if wdx < idx {
            assert(after[wdx] == before[wdx]);
            assert(has_leaf_at_any(before, c));
        } else {
            assert(after[wdx] == before[wdx - 1]);
            assert(has_leaf_at_any(before, c));
        }
    }
}

/// Inserting a segment keeps every accounted-for hash row accounted for,
/// and a row inserted as its own span accounts for itself.
proof fn lemma_covered_after_insert(
    before: Seq<Segment>,
    seg: Segment,
    idx: int,
    hrows: Seq<(u64, u8, Digest)>,
    i: int,
)
    requires
        0 <= idx <= before.len(),
        0 <= i < hrows.len(),
        seg.pos() == hrows[i].0 as int,
        seg.height() == hrows[i].1 as int,
    ensures
        forall|j: int|
            0 <= j < hrows.len() && row_covered(before, #[trigger] hrows[j]) ==> row_covered(
                before.insert(idx, seg),
                hrows[j],
            ),
        row_covered(before.insert(idx, seg), hrows[i]),
{
    before.insert_ensures(idx, seg);
    let after = before.insert(idx, seg);
    assert forall|j: int|
        0 <= j < hrows.len() && row_covered(before, #[trigger] hrows[j]) implies row_covered(
        after,
        hrows[j],
    ) by {
        let w = choose|w: int|
            0 <= w < before.len() && hrows[j].0 as int <= (#[trigger] before[w]).pos()
                && before[w].end() <= hrows[j].0 + pow4(hrows[j].1 as int);
        if w < idx {
            assert(after[w] == before[w]);
        } else {
            assert(after[w + 1] == before[w]);
        }
    }
    assert(after[idx] == seg);
    crate::position::lemma_pow4_pos(seg.height());
    assert(row_covered(after, hrows[i]));
}

/// A position lies in the span of at most one segment of a well-formed
/// store.
proof fn lemma_segments_unique_at(segs: Seq<Segment>, next: int, i: int, j: int, q: int)
    requires
        segs_wf(segs, next),
        0 <= i < segs.len(),
        0 <= j < segs.len(),
        segs[i].pos() <= q < segs[i].end(),
        segs[j].pos() <= q < segs[j].end(),
    ensures
        i == j,
{
    if i < j {
        assert(segs[i].end() <= segs[j].pos());
    } else if j < i {
        assert(segs[j].end() <= segs[i].pos());
    }
}

/// A position of the store carries contents exactly when some rebuilt
/// segment spans it: commitment rows are rebuilt as leaves, essential hash
/// rows as their own pruned spans, and redundant cached rows stand over
/// contents recorded elsewhere.
#[verifier::rlimit(100)]
#[verifier::spinoff_prover]
proof fn lemma_covered_iff_segment(store: &InMemory, segs: Seq<Segment>)
    requires
        store_valid(*store),
        forall|i: int, j: int|
            0 <= i < j < store.hashes@.len() ==> !((#[trigger] store.hashes@[i]).0 == (
            #[trigger] store.hashes@[j]).0 && store.hashes@[i].1 == store.hashes@[j].1),
        segs_wf(segs, store.position as int),
        forall|k: int|
            0 <= k < store.commitments@.len() ==> has_leaf_at(
                segs,
                (#[trigger] store.commitments@[k]).0 as int,
                store.commitments@[k].1@,
            ),
        forall|a: int|
            0 <= a < segs.len() ==> segment_from_rows(
                #[trigger] segs[a],
                store.commitments@,
                store.hashes@,
            ),
        forall|j: int|
            0 <= j < store.hashes@.len() ==> row_covered(segs, #[trigger] store.hashes@[j]),
    ensures
        forall|p: int|
            #[trigger] position_covered(*store, p) <==> exists|i: int|
                0 <= i < segs.len() && (#[trigger] segs[i]).pos() <= p && p < segs[i].end(),
{
    assert forall|p: int|
        #[trigger] position_covered(*store, p) <==> exists|i: int|
            0 <= i < segs.len() && (#[trigger] segs[i]).pos() <= p && p < segs[i].end() by {
        if position_covered(*store, p) {
            if exists|k: int|
                0 <= k < store.commitments@.len() && (#[trigger] store.commitments@[k]).0 == p {
                let k = choose|k: int|
                    0 <= k < store.commitments@.len() && (#[trigger] store.commitments@[k]).0 == p;
                let w = choose|w: int|
                    0 <= w < segs.len() && (#[trigger] segs[w]).is_leaf() && segs[w].pos()
                        == store.commitments@[k].0 as int && segs[w].leaf_commitment()
                        == store.commitments@[k].1@;
                lemma_pow4_pos(segs[w].height());
                assert(segs[w].pos() <= p && p < segs[w].end());
            } else {
                let j = choose|j: int|
                    0 <= j < store.hashes@.len() && hash_row_essential(*store, j) && (
                    #[trigger] store.hashes@[j]).0 <= p && p < store.hashes@[j].0 + pow4(
                        store.hashes@[j].1 as int,
                    );
                assert(row_covered(segs, store.hashes@[j]));
                let w = choose|w: int|
                    0 <= w < segs.len() && store.hashes@[j].0 as int <= (#[trigger] segs[w]).pos()
                        && segs[w].end() <= store.hashes@[j].0 + pow4(store.hashes@[j].1 as int);
                lemma_pow4_pos(segs[w].height());
                assert(segment_from_rows(segs[w], store.commitments@, store.hashes@));
                if segs[w].is_leaf() {
                    let k2 = choose|k2: int|
                        0 <= k2 < store.commitments@.len() && leaf_from_row(
                            segs[w],
                            store.commitments@[k2],
                        );
                    // A commitment row inside the row's span contradicts
                    // its being essential.
                    assert(false);
                } else {
                    let k2 = choose|k2: int|
                        0 <= k2 < store.hashes@.len() && pruned_from_row(
                            segs[w],
                            store.hashes@[k2],
                        );
                    if k2 != j {
                        // Another hash row inside the span contradicts its
                        // being essential.
                        assert(store.hashes@[j].0 <= store.hashes@[k2].0);
                        assert(store.hashes@[k2].0 + pow4(store.hashes@[k2].1 as int)
                            <= store.hashes@[j].0 + pow4(store.hashes@[j].1 as int));
                        assert(false);
                    }
                    assert(segs[w].pos() == store.hashes@[j].0 as int);
                    assert(segs[w].end() == store.hashes@[j].0 + pow4(store.hashes@[j].1 as int));
                    assert(segs[w].pos() <= p && p < segs[w].end());
                }
            }
        }
        if exists|i: int| 0 <= i < segs.len() && (#[trigger] segs[i]).pos() <= p && p < segs[i].end() {
            let i = choose|i: int|
                0 <= i < segs.len() && (#[trigger] segs[i]).pos() <= p && p < segs[i].end();
            if segs[i].is_leaf() {
                let k = choose|k: int|
                    0 <= k < store.commitments@.len() && leaf_from_row(
                        segs[i],
                        store.commitments@[k],
                    );
                assert(store.commitments@[k].0 == p);
                assert(position_covered(*store, p));
            } else {
                let k = choose|k: int|
                    0 <= k < store.hashes@.len() && pruned_from_row(segs[i], store.hashes@[k]);
                assert(hash_row_essential(*store, k)) by {
                    if exists|kc: int|
                        0 <= kc < store.commitments@.len() && store.hashes@[k].0 <= (
                        #[trigger] store.commitments@[kc]).0 && (store.commitments@[kc].0 as int)
                            < store.hashes@[k].0 + pow4(store.hashes@[k].1 as int) {
                        let kc = choose|kc: int|
                            0 <= kc < store.commitments@.len() && store.hashes@[k].0 <= (
                            #[trigger] store.commitments@[kc]).0 && (store.commitments@[kc].0
                                as int) < store.hashes@[k].0 + pow4(store.hashes@[k].1 as int);
                        let w = choose|w: int|
                            0 <= w < segs.len() && (#[trigger] segs[w]).is_leaf() && segs[w].pos()
                                == store.commitments@[kc].0 as int && segs[w].leaf_commitment()
                                == store.commitments@[kc].1@;
                        lemma_pow4_pos(segs[w].height());
                        lemma_segments_unique_at(
                            segs,
                            store.position as int,
                            i,
                            w,
                            store.commitments@[kc].0 as int,
                        );
                        assert(false);
                    }
                    if exists|kh: int|
                        0 <= kh < store.hashes@.len() && kh != k && store.hashes@[k].0 <= (
                        #[trigger] store.hashes@[kh]).0 && store.hashes@[kh].0 + pow4(
                            store.hashes@[kh].1 as int,
                        ) <= store.hashes@[k].0 + pow4(store.hashes@[k].1 as int) {
                        let kh = choose|kh: int|
                            0 <= kh < store.hashes@.len() && kh != k && store.hashes@[k].0 <= (
                            #[trigger] store.hashes@[kh]).0 && store.hashes@[kh].0 + pow4(
                                store.hashes@[kh].1 as int,
                            ) <= store.hashes@[k].0 + pow4(store.hashes@[k].1 as int);
                        assert(row_covered(segs, store.hashes@[kh]));
                        let w2 = choose|w2: int|
                            0 <= w2 < segs.len() && store.hashes@[kh].0 as int <= (
                            #[trigger] segs[w2]).pos() && segs[w2].end() <= store.hashes@[kh].0
                                + pow4(store.hashes@[kh].1 as int);
                        lemma_pow4_pos(segs[w2].height());
                        if w2 == i {
                            // The inner row would have the same span, hence
                            // the same position and height: a duplicate.
                            assert(store.hashes@[kh].0 == store.hashes@[k].0);
                            assert(pow4(store.hashes@[kh].1 as int) == pow4(
                                store.hashes@[k].1 as int,
                            ));
                            if (store.hashes@[kh].1 as int) < store.hashes@[k].1 as int {
                                crate::position::lemma_pow4_strict(
                                    store.hashes@[kh].1 as int,
                                    store.hashes@[k].1 as int,
                                );
                            }
                            if (store.hashes@[k].1 as int) < store.hashes@[kh].1 as int {
                                crate::position::lemma_pow4_strict(
                                    store.hashes@[k].1 as int,
                                    store.hashes@[kh].1 as int,
                                );
                            }
                            assert(store.hashes@[kh].1 == store.hashes@[k].1);
                            assert(false);
                        } else {
                            lemma_segments_unique_at(
                                segs,
                                store.position as int,
                                i,
                                w2,
                                segs[w2].pos(),
                            );
                            assert(false);
                        }
                    }
                }
                assert(store.hashes@[k].0 <= p && p < store.hashes@[k].0 + pow4(
                    store.hashes@[k].1 as int,
                ));
                assert(position_covered(*store, p));
            }
        }
    }
}

/// The facts the rebuild establishes about its segments, used to relate
/// store-level coverage to the placed spans.
pub open spec fn rebuild_facts(store: InMemory, segs: Seq<Segment>) -> bool {
    &&& store_valid(store)
    &&& segs_wf(segs, store.position as int)
    &&& forall|k: int|
        0 <= k < store.commitments@.len() ==> has_leaf_at(
            segs,
            (#[trigger] store.commitments@[k]).0 as int,
            store.commitments@[k].1@,
        )
    &&& forall|a: int|
        0 <= a < segs.len() ==> segment_from_rows(
            #[trigger] segs[a],
            store.commitments@,
            store.hashes@,
        )
    &&& forall|j: int|
        0 <= j < store.hashes@.len() ==> row_covered(segs, #[trigger] store.hashes@[j])
    &&& forall|i: int, j: int|
        0 <= i < j < store.hashes@.len() ==> !((#[trigger] store.hashes@[i]).0 == (
        #[trigger] store.hashes@[j]).0 && store.hashes@[i].1 == store.hashes@[j].1)
}

/// A placed span that neither abuts its predecessor nor starts on a block
/// boundary witnesses an uncovered run no sealing could have produced.
#[verifier::rlimit(100)]
#[verifier::spinoff_prover]
proof fn lemma_gap_break(store: &InMemory, segs: Seq<Segment>, i: int, prev_end: int)
    requires
        rebuild_facts(*store, segs),
        0 <= i < segs.len(),
        prev_end == crate::segment::prev_covered_end(segs, i),
        segs[i].pos() != prev_end,
        segs[i].pos() % (BLOCK_SPAN as int) != 0,
    ensures
        !store_consistent(*store),
{
    lemma_covered_iff_segment(store, segs);
    lemma_wf_pos_increasing(segs, store.position as int);
    let b = segs[i].pos();
    lemma_pow4_pos(segs[i].height());
    if i > 0 {
        lemma_pow4_pos(segs[i - 1].height());
        assert(segs[i - 1].end() <= b);
    }
    assert(prev_end < b);
    // No span holds the position just before this segment.
    assert forall|w: int|
        0 <= w < segs.len() implies !((#[trigger] segs[w]).pos() <= b - 1 && b - 1
        < segs[w].end()) by {
        if w < i {
            lemma_pow4_pos(segs[w].height());
            if w < i - 1 {
                lemma_pow4_pos(segs[i - 1].height());
                assert(segs[w].end() <= segs[i - 1].pos());
                assert(segs[i - 1].pos() < segs[i - 1].end());
            }
            assert(segs[w].end() <= prev_end);
        } else {
            assert(segs[w].pos() >= b);
        }
    }
    assert(!position_covered(*store, b - 1));
    assert(segs[i].pos() <= b && b < segs[i].end());
    assert(position_covered(*store, b));
    assert(0 < b && b < store.position);
    assert(!store_consistent(*store));
}

/// A stored position that neither abuts the last placed span nor sits on a
/// block boundary witnesses an uncovered run no sealing could have
/// produced.
#[verifier::rlimit(100)]
#[verifier::spinoff_prover]
proof fn lemma_gap_tail(store: &InMemory, segs: Seq<Segment>, prev_end: int)
    requires
        rebuild_facts(*store, segs),
        prev_end == crate::segment::prev_covered_end(segs, segs.len() as int),
        prev_end != store.position,
        (store.position as int) % (BLOCK_SPAN as int) != 0,
    ensures
        !store_consistent(*store),
{
    lemma_covered_iff_segment(store, segs);
    lemma_wf_pos_increasing(segs, store.position as int);
    let n = segs.len() as int;
    let b = store.position as int;
    if n > 0 {
        lemma_pow4_pos(segs[n - 1].height());
    }
    assert(prev_end < b);
    assert forall|w: int|
        0 <= w < segs.len() implies !((#[trigger] segs[w]).pos() <= b - 1 && b - 1
        < segs[w].end()) by {
        lemma_pow4_pos(segs[w].height());
        if w < n - 1 {
            lemma_pow4_pos(segs[n - 1].height());
            assert(segs[w].end() <= segs[n - 1].pos());
            assert(segs[n - 1].pos() < segs[n - 1].end());
        }
        assert(segs[w].end() <= prev_end);
    }
    assert(!position_covered(*store, b - 1));
    assert(0 < b);
    assert(!store_consistent(*store));
}

/// When every placed span abuts its predecessor or starts on a block
/// boundary, and the stored position abuts the last span or sits on a
/// boundary, the store is consistent.
#[verifier::rlimit(100)]
#[verifier::spinoff_prover]
proof fn lemma_consistent_ok(store: &InMemory, segs: Seq<Segment>)
    requires
        rebuild_facts(*store, segs),
        crate::segment::gaps_sealed(segs, store.position as int),
    ensures
        store_consistent(*store),
{
    lemma_covered_iff_segment(store, segs);
    lemma_wf_pos_increasing(segs, store.position as int);
    let n = segs.len() as int;
    assert forall|b: int|
        0 < b <= store.position && !position_covered(*store, b - 1) && (b == store.position
            || position_covered(*store, b)) implies #[trigger] (b % (BLOCK_SPAN as int)) == 0 by {
        if b < store.position && position_covered(*store, b) {
            let w = choose|w: int|
                0 <= w < segs.len() && (#[trigger] segs[w]).pos() <= b && b < segs[w].end();
            lemma_pow4_pos(segs[w].height());
            if segs[w].pos() < b {
                assert(segs[w].pos() <= b - 1 && b - 1 < segs[w].end());
                assert(position_covered(*store, b - 1));
            }
            assert(segs[w].pos() == b);
            if segs[w].pos() == crate::segment::prev_covered_end(segs, w) {
                if w > 0 {
                    lemma_pow4_pos(segs[w - 1].height());
                    assert(segs[w - 1].pos() <= b - 1 && b - 1 < segs[w - 1].end());
                    assert(position_covered(*store, b - 1));
                }
                assert(false);
            }
        } else {
            assert(b == store.position);
            if store.position as int == crate::segment::covered_end(segs) {
                if n > 0 {
                    lemma_pow4_pos(segs[n - 1].height());
                    assert(segs[n - 1].pos() <= b - 1 && b - 1 < segs[n - 1].end());
                    assert(position_covered(*store, b - 1));
                }
                assert(false);
            }
        }
    }
}

/// Rebuild a tree from a store.
///
/// Succeeds exactly on valid, consistent stores: every row well shaped, no
/// span recorded twice, and every uncovered run of positions below the
/// stored position ending on a block boundary, as only sealing can skip
/// positions.  The rebuilt tree sits at the stored position, its
/// forgotten-version counter restarts at zero, and it witnesses exactly
/// the commitments of the store's commitment rows, each at its stored
/// position.
#[verifier::rlimit(100)]
pub fn from_reader(store: &InMemory) -> (result: Result<Tree, ReadError>)
    ensures
        result is Ok <==> store_valid(*store) && store_consistent(*store),
        result matches Ok(tree) ==> {
            &&& tree.wf()
            &&& tree.next == store.position
            &&& tree.forgotten == 0
            &&& forall|k: int|
                0 <= k < store.commitments@.len() ==> tree.commitment_at(
                    (#[trigger] store.commitments@[k]).0 as int,
                    store.commitments@[k].1@,
                )
            &&& forall|c: Seq<u8>|
                tree.contains_commitment(c) ==> exists|k: int|
                    0 <= k < store.commitments@.len() && (#[trigger] store.commitments@[k]).1@ == c
            &&& forall|a: int|
                0 <= a < tree.segments@.len() ==> segment_from_rows(
                    #[trigger] tree.segments@[a],
                    store.commitments@,
                    store.hashes@,
                )
            &&& forall|j: int|
                0 <= j < store.hashes@.len() ==> row_covered(
                    tree.segments@,
                    #[trigger] store.hashes@[j],
                )
        },
{
    // Validate the position and all rows up front.
    if store.position > TREE_SPAN {
        return Err(ReadError::Corrupt);
    }
    let ncr = store.commitments.len();
    let mut v: usize = 0;
    while v < ncr
        invariant
            ncr == store.commitments@.len(),
            v <= ncr,
            store.position <= TREE_SPAN,
            forall|a: int| 0 <= a < v ==> (#[trigger] store.commitments@[a]).0 + 1 <= store.position,
            forall|a: int, b: int|
                0 <= a < b < ncr && a < v ==> (#[trigger] store.commitments@[a]).0 != (
                #[trigger] store.commitments@[b]).0 && store.commitments@[a].1@
                    != store.commitments@[b].1@,
        decreases ncr - v,
    {
        let (p, c) = store.commitments[v];
        if p >= store.position {
            return Err(ReadError::Corrupt);
        }
        let mut w: usize = v + 1;
        while w < ncr
            invariant
                ncr == store.commitments@.len(),
                v < w <= ncr,
                (p, c) == store.commitments@[v as int],
                forall|b: int|
                    v < b < w ==> (#[trigger] store.commitments@[b]).0 != p
                        && store.commitments@[b].1@ != c@,
            decreases ncr - w,
        {
            let (p2, c2) = store.commitments[w];
            if p2 == p || bytes32_eq(&c2.0, &c.0) {
                return Err(ReadError::Corrupt);
            }
            w = w + 1;
        }
        v = v + 1;
    }
    let nhr = store.hashes.len();
    let mut v: usize = 0;
    while v < nhr
        invariant
            nhr == store.hashes@.len(),
            v <= nhr,
            store.position <= TREE_SPAN,
            forall|a: int|
                0 <= a < v ==> (#[trigger] store.hashes@[a]).1 <= 24 && ((store.hashes@[a].0
                    as int) % pow4(store.hashes@[a].1 as int) == 0) && store.hashes@[a].0 + pow4(
                    store.hashes@[a].1 as int,
                ) <= store.position,
            forall|a: int, b: int|
                0 <= a < b < nhr && a < v ==> !((#[trigger] store.hashes@[a]).0 == (
                #[trigger] store.hashes@[b]).0 && store.hashes@[a].1 == store.hashes@[b].1),
        decreases nhr - v,
    {
        let (p, h, _d) = store.hashes[v];
        if h > 24 {
            return Err(ReadError::Corrupt);
        }
        proof {
            lemma_pow4_pos(h as int);
            lemma_pow4_increases(h as int, 24);
            lemma_span_values();
        }
        let span = pow4_u64(h);
        if p % span != 0 || p > TREE_SPAN - span || p + span > store.position {
            return Err(ReadError::Corrupt);
        }
        let mut w: usize = v + 1;
        while w < nhr
            invariant
                nhr == store.hashes@.len(),
                v < w <= nhr,
                (p, h, _d) == store.hashes@[v as int],
                forall|b: int|
                    v < b < w ==> !((#[trigger] store.hashes@[b]).0 == p && store.hashes@[b].1
                        == h),
            decreases nhr - w,
        {
            let (p2, h2, _d2) = store.hashes[w];
            if p2 == p && h2 == h {
                return Err(ReadError::Corrupt);
            }
            w = w + 1;
        }
        v = v + 1;
    }

    // Place the commitment rows as witnessed leaves, in position order.
    let mut segments: Vec<Segment> = Vec::new();
    let mut i: usize = 0;
    while i < ncr
        invariant
            ncr == store.commitments@.len(),
            i <= ncr,
            store_valid(*store),
            segs_wf(segments@, store.position as int),
            segments@.len() == i,
            forall|a: int|
                0 <= a < segments@.len() ==> exists|k: int|
                    0 <= k < i && leaf_from_row(#[trigger] segments@[a], store.commitments@[k]),
            forall|k: int|
                0 <= k < i ==> has_leaf_at(
                    segments@,
                    (#[trigger] store.commitments@[k]).0 as int,
                    store.commitments@[k].1@,
                ),
        decreases ncr - i,
    {
        let (p, c) = store.commitments[i];
        let idx = first_ge_index(&segments, 0, segments.len(), p);
        let seg = Segment::Leaf { position: p, commitment: c };
        let ghost before = segments@;
        segments.insert(idx, seg);
        proof {
            assert(segments@ == before.insert(idx as int, seg));
            lemma_place_leaf(
                before,
                store.commitments@,
                i as int,
                idx as int,
                store.position as int,
            );
        }
        i = i + 1;
    }

    proof {
        assert forall|c: Seq<u8>|
            has_leaf_at_any(segments@, c) implies exists|k: int|
            0 <= k < store.commitments@.len() && (#[trigger] store.commitments@[k]).1@ == c by {
            let wdx = choose|wdx: int|
                0 <= wdx < segments@.len() && (#[trigger] segments@[wdx]).is_leaf()
                    && segments@[wdx].leaf_commitment() == c;
            let k = choose|k: int|
                0 <= k < ncr && leaf_from_row(segments@[wdx], store.commitments@[k]);
            assert(store.commitments@[k].1@ == c);
        }
        assert forall|a: int|
            0 <= a < segments@.len() implies (#[trigger] segments@[a]).stamp_of() == 0
            && segments@[a].height() == 0 by {
            let k = choose|k: int|
                0 <= k < ncr && leaf_from_row(segments@[a], store.commitments@[k]);
        }
        assert forall|a: int|
            0 <= a < segments@.len() implies segment_from_rows(
            #[trigger] segments@[a],
            store.commitments@,
            store.hashes@,
        ) by {
            let k = choose|k: int|
                0 <= k < ncr && leaf_from_row(segments@[a], store.commitments@[k]);
        }
    }

    // Place the hash rows as pruned spans, smallest heights first, so that
    // a row covering rows already placed is recognized as a redundant
    // cached hash and skipped.
    let ghost crows = store.commitments@;
    let mut hh: u8 = 0;
    while hh <= 24
        invariant
            store_valid(*store),
            nhr == store.hashes@.len(),
            hh <= 25,
            segs_wf(segments@, store.position as int),
            forall|a: int| 0 <= a < segments@.len() ==> (#[trigger] segments@[a]).height() < hh
                || (segments@[a].height() == 0 && hh == 0),
            forall|a: int| 0 <= a < segments@.len() ==> (#[trigger] segments@[a]).stamp_of() == 0,
            forall|k: int|
                0 <= k < crows.len() ==> has_leaf_at(
                    segments@,
                    (#[trigger] crows[k]).0 as int,
                    crows[k].1@,
                ),
            forall|c: Seq<u8>|
                has_leaf_at_any(segments@, c) ==> exists|k: int|
                    0 <= k < crows.len() && (#[trigger] crows[k]).1@ == c,
            forall|a: int|
                0 <= a < segments@.len() ==> segment_from_rows(
                    #[trigger] segments@[a],
                    crows,
                    store.hashes@,
                ),
            forall|j: int|
                0 <= j < store.hashes@.len() && (#[trigger] store.hashes@[j]).1 < hh
                    ==> row_covered(segments@, store.hashes@[j]),
            crows == store.commitments@,
        decreases 25 - hh,
    {
        let mut i: usize = 0;
        while i < nhr
            invariant
                store_valid(*store),
                nhr == store.hashes@.len(),
                i <= nhr,
                hh <= 24,
                segs_wf(segments@, store.position as int),
                forall|a: int| 0 <= a < segments@.len() ==> (#[trigger] segments@[a]).height() <= hh,
                forall|a: int|
                    0 <= a < segments@.len() ==> (#[trigger] segments@[a]).stamp_of() == 0,
                forall|k: int|
                    0 <= k < crows.len() ==> has_leaf_at(
                        segments@,
                        (#[trigger] crows[k]).0 as int,
                        crows[k].1@,
                    ),
                forall|c: Seq<u8>|
                    has_leaf_at_any(segments@, c) ==> exists|k: int|
                        0 <= k < crows.len() && (#[trigger] crows[k]).1@ == c,
                forall|a: int|
                    0 <= a < segments@.len() ==> segment_from_rows(
                        #[trigger] segments@[a],
                        crows,
                        store.hashes@,
                    ),
                forall|j: int|
                    0 <= j < store.hashes@.len() && ((#[trigger] store.hashes@[j]).1 < hh || (
                    store.hashes@[j].1 == hh && j < i)) ==> row_covered(
                        segments@,
                        store.hashes@[j],
                    ),
                crows == store.commitments@,
            decreases nhr - i,
        {
            let (p, h, d) = store.hashes[i];
            if h == hh {
                proof {
                    lemma_pow4_pos(h as int);
                    lemma_pow4_increases(h as int, 24);
                    lemma_span_values();
                    lemma_wf_pos_increasing(segments@, store.position as int);
                }
                let span = pow4_u64(h);
                let idx = first_ge_index(&segments, 0, segments.len(), p);
                proof {
                    lemma_first_ge_props(segments@, 0, segments@.len() as int, p as int);
                }
                let covered = idx < segments.len() && segments[idx].position_value() < p + span;
                if covered {
                    proof {
                        lemma_skip_covers(
                            segments@,
                            store.hashes@,
                            i as int,
                            idx as int,
                            store.position as int,
                        );
                    }
                }
                if !covered {
                    let seg = Segment::Pruned { position: p, height: h, hash: d, stamp: 0 };
                    let ghost before = segments@;
                    segments.insert(idx, seg);
                    proof {
                        assert(segments@ == before.insert(idx as int, seg));
                        lemma_place_pruned(
                            before,
                            store.hashes@,
                            crows,
                            i as int,
                            idx as int,
                            store.position as int,
                        );
                        lemma_covered_after_insert(
                            before,
                            seg,
                            idx as int,
                            store.hashes@,
                            i as int,
                        );
                    }
                }
            }
            i = i + 1;
        }
        hh = hh + 1;
    }

    // Every gap between placed spans must be explained by sealing: a gap
    // can only arise from ending a block or an epoch, so it must end on a
    // block boundary.
    let n = segments.len();
    let mut prev_end: u64 = 0;
    let mut i: usize = 0;
    while i < n
        invariant
            n == segments@.len(),
            i <= n,
            store.position <= TREE_SPAN,
            segs_wf(segments@, store.position as int),
            prev_end as int == crate::segment::prev_covered_end(segments@, i as int),
            prev_end <= store.position,
            forall|a: int|
                0 <= a < i ==> (#[trigger] segments@[a]).pos() == crate::segment::prev_covered_end(
                    segments@,
                    a,
                ) || segments@[a].pos() % (BLOCK_SPAN as int) == 0,
            forall|k: int|
                0 <= k < store.commitments@.len() ==> has_leaf_at(
                    segments@,
                    (#[trigger] store.commitments@[k]).0 as int,
                    store.commitments@[k].1@,
                ),
            forall|a: int|
                0 <= a < segments@.len() ==> segment_from_rows(
                    #[trigger] segments@[a],
                    store.commitments@,
                    store.hashes@,
                ),
            forall|j: int|
                0 <= j < store.hashes@.len() ==> row_covered(
                    segments@,
                    #[trigger] store.hashes@[j],
                ),
            store_valid(*store),
            forall|a: int, b: int|
                0 <= a < b < store.hashes@.len() ==> !((#[trigger] store.hashes@[a]).0 == (
                #[trigger] store.hashes@[b]).0 && store.hashes@[a].1 == store.hashes@[b].1),
        decreases n - i,
    {
        let sp = segments[i].position_value();
        if sp != prev_end && sp % BLOCK_SPAN != 0 {
            proof {
                lemma_gap_break(store, segments@, i as int, prev_end as int);
            }
            return Err(ReadError::Corrupt);
        }
        proof {
            assert(segments@[i as int].height() <= 24);
        }
        prev_end = segments[i].position_value() + pow4_u64(segments[i].height_value());
        i = i + 1;
    }
    if prev_end != store.position && store.position % BLOCK_SPAN != 0 {
        proof {
            lemma_gap_tail(store, segments@, prev_end as int);
        }
        return Err(ReadError::Corrupt);
    }
    proof {
        assert(crate::segment::covered_end(segments@) == crate::segment::prev_covered_end(
            segments@,
            n as int,
        ));
        assert(crate::segment::gaps_sealed(segments@, store.position as int));
        lemma_consistent_ok(store, segments@);
    }

    let tree = Tree { next: store.position, segments, forgotten: 0 };
    proof {
        assert forall|k: int|
            0 <= k < store.commitments@.len() implies tree.commitment_at(
            (#[trigger] store.commitments@[k]).0 as int,
            store.commitments@[k].1@,
        ) by {
            let w = choose|w: int|
                0 <= w < tree.segments@.len() && (#[trigger] tree.segments@[w]).is_leaf()
                    && tree.segments@[w].pos() == store.commitments@[k].0 as int
                    && tree.segments@[w].leaf_commitment() == store.commitments@[k].1@;
            assert(0 <= w < tree.segments@.len() && tree.segments@[w].is_leaf()
                && tree.segments@[w].pos() == store.commitments@[k].0 as int
                && tree.segments@[w].leaf_commitment() == store.commitments@[k].1@);
        }
        assert forall|c: Seq<u8>|
            tree.contains_commitment(c) implies exists|k: int|
            0 <= k < store.commitments@.len() && (#[trigger] store.commitments@[k]).1@ == c by {
            let w = choose|w: int|
                0 <= w < tree.segments@.len() && (#[trigger] tree.segments@[w]).is_leaf()
                    && tree.segments@[w].leaf_commitment() == c;
            assert(has_leaf_at_any(tree.segments@, c));
        }
    }
    Ok(tree)
}

} // verus!

//! The sparse contents of the tree, and the hash of any region of it.
//!
//! The tree stores only what cannot be recomputed: the witnessed leaves, and
//! the hashes of subtrees that have been pruned away.  Both are recorded as
//! *segments* — aligned, disjoint spans of positions, kept in increasing
//! order of position, all strictly below the tree's next insertion position.
//!
//! Everything else about the shape of the tree is derived from the next
//! insertion position alone.  A region of the position space that holds no
//! segment is padding: `one` if the region has been sealed past (it lies
//! entirely below the next position), `zero` if it is still to come.  A
//! region that holds segments, or that the next position falls inside of, is
//! an internal node whose hash combines the hashes of its four quarters.

use vstd::prelude::*;
use crate::hash::Commitment;
use crate::hash::Digest;
use crate::hash::leaf_hash_of;
use crate::hash::node_hash_of;
use crate::hash::zero_hash;
use crate::hash::one_hash;
use crate::position::pow4;
use crate::position::pow4_u64;
use crate::position::lemma_pow4_pos;
use crate::position::lemma_pow4_increases;
use crate::position::lemma_span_values;
use crate::position::TREE_SPAN;
use crate::position::BLOCK_SPAN;
use vstd::arithmetic::div_mod::lemma_fundamental_div_mod;
use vstd::arithmetic::div_mod::lemma_mod_multiples_basic;

verus! {

/// One stored span of the tree: either a witnessed leaf, or the hash of a
/// pruned subtree together with the forgotten-version stamp under which it
/// was pruned.
#[derive(Clone, Copy, Debug)]
pub enum Segment {
    /// A witnessed commitment at a single position.
    Leaf { position: u64, commitment: Commitment },
    /// A subtree of `4^height` positions starting at `position`, of which
    /// only the hash remains.
    Pruned { position: u64, height: u8, hash: Digest, stamp: u64 },
}

impl Segment {
    /// The first position this segment spans.
    pub open spec fn pos(&self) -> int {
        match self {
            Segment::Leaf { position, .. } => *position as int,
            Segment::Pruned { position, .. } => *position as int,
        }
    }

    /// The height of the node this segment stands for (a leaf has height 0).
    pub open spec fn height(&self) -> int {
        match self {
            Segment::Leaf { .. } => 0,
            Segment::Pruned { height, .. } => *height as int,
        }
    }

    /// The number of positions this segment spans.
    pub open spec fn span(&self) -> int {
        pow4(self.height())
    }

    /// One past the last position this segment spans.
    pub open spec fn end(&self) -> int {
        self.pos() + self.span()
    }

    /// The hash this segment contributes at its own height.
    pub open spec fn content_hash(&self) -> Seq<u8> {
        match self {
            Segment::Leaf { commitment, .. } => leaf_hash_of(commitment@),
            Segment::Pruned { hash, .. } => hash@,
        }
    }

    /// The forgotten-version stamp of this segment (a witnessed leaf carries
    /// none).
    pub open spec fn stamp_of(&self) -> int {
        match self {
            Segment::Leaf { .. } => 0,
            Segment::Pruned { stamp, .. } => *stamp as int,
        }
    }

    /// Whether this segment is a witnessed leaf.
    pub open spec fn is_leaf(&self) -> bool {
        match self {
            Segment::Leaf { .. } => true,
            Segment::Pruned { .. } => false,
        }
    }

    /// The commitment bytes of a witnessed leaf.
    pub open spec fn leaf_commitment(&self) -> Seq<u8> {
        match self {
            Segment::Leaf { commitment, .. } => commitment@,
            Segment::Pruned { .. } => Seq::empty(),
        }
    }

    /// A segment is well formed when its height is within the tree, its span
    /// starts at a multiple of its size, and it lies inside the tree.
    pub open spec fn wf(&self) -> bool {
        &&& 0 <= self.height() <= 24
        &&& self.pos() % self.span() == 0
        &&& self.end() <= TREE_SPAN
    }

    /// The first position this segment spans.
    pub fn position_value(&self) -> (p: u64)
        ensures
            p == self.pos(),
    {
        match self {
            Segment::Leaf { position, .. } => *position,
            Segment::Pruned { position, .. } => *position,
        }
    }

    /// The height of the node this segment stands for.
    pub fn height_value(&self) -> (h: u8)
        ensures
            h == self.height(),
    {
        match self {
            Segment::Leaf { .. } => 0,
            Segment::Pruned { height, .. } => *height,
        }
    }

    /// The hash this segment contributes at its own height.
    pub fn content_digest(&self) -> (d: Digest)
        ensures
            d@ == self.content_hash(),
    {
        match self {
            Segment::Leaf { commitment, .. } => Digest::of(commitment),
            Segment::Pruned { hash, .. } => *hash,
        }
    }
}

/// The well-formedness of a whole store of segments, against the next
/// insertion position: each segment well formed and wholly below `next`,
/// segments disjoint and in increasing order, and no commitment witnessed
/// twice.
pub open spec fn segs_wf(segs: Seq<Segment>, next: int) -> bool {
    &&& forall|i: int| 0 <= i < segs.len() ==> (#[trigger] segs[i]).wf()
    &&& forall|i: int| 0 <= i < segs.len() ==> (#[trigger] segs[i]).end() <= next
    &&& forall|i: int, j: int|
        0 <= i < j < segs.len() ==> (#[trigger] segs[i]).end() <= (#[trigger] segs[j]).pos()
    &&& forall|i: int, j: int|
        0 <= i < j < segs.len() && (#[trigger] segs[i]).is_leaf() && (#[trigger] segs[j]).is_leaf()
            ==> segs[i].leaf_commitment() != segs[j].leaf_commitment()
}

/// The position a store of segments covers up to: the end of its last
/// segment, or zero when it is empty.
pub open spec fn covered_end(segs: Seq<Segment>) -> int {
    if segs.len() == 0 {
        0
    } else {
        segs.last().end()
    }
}

/// Whether every uncovered span of positions is explained by sealing: a
/// gap can only arise from ending a block or an epoch, which advances the
/// next position to a tier boundary, so every gap must end on a block
/// boundary.  Equivalently: each segment either abuts its predecessor or
/// starts on a block boundary, and the next position either abuts the last
/// segment or sits on a block boundary.
pub open spec fn gaps_sealed(segs: Seq<Segment>, next: int) -> bool {
    &&& forall|i: int|
        0 <= i < segs.len() ==> (#[trigger] segs[i]).pos() == prev_covered_end(segs, i)
            || segs[i].pos() % (BLOCK_SPAN as int) == 0
    &&& (next == covered_end(segs) || next % (BLOCK_SPAN as int) == 0)
}

/// The end of the segment before index `i`, or zero for the first.
pub open spec fn prev_covered_end(segs: Seq<Segment>, i: int) -> int {
    if i == 0 {
        0
    } else {
        segs[i - 1].end()
    }
}

/// Under well-formedness, positions strictly increase along the store.
pub proof fn lemma_wf_pos_increasing(segs: Seq<Segment>, next: int)
    requires
        segs_wf(segs, next),
    ensures
        forall|i: int, j: int|
            0 <= i < j < segs.len() ==> (#[trigger] segs[i]).pos() < (#[trigger] segs[j]).pos(),
{
    assert forall|i: int, j: int|
        0 <= i < j < segs.len() implies (#[trigger] segs[i]).pos() < (#[trigger] segs[j]).pos() by {
        lemma_pow4_pos(segs[i].height());
    }
}

/// The least index in `[lo, hi)` whose segment starts at or after `b`, or
/// `hi` if there is none.
pub open spec fn first_ge(segs: Seq<Segment>, lo: int, hi: int, b: int) -> int
    decreases hi - lo,
{
    if lo >= hi {
        hi
    } else if segs[lo].pos() >= b {
        lo
    } else {
        first_ge(segs, lo + 1, hi, b)
    }
}

/// What `first_ge` splits: everything before it starts below `b`, and (when
/// positions increase) everything from it on starts at or after `b`.
pub proof fn lemma_first_ge_props(segs: Seq<Segment>, lo: int, hi: int, b: int)
    requires
        0 <= lo <= hi <= segs.len(),
        forall|i: int, j: int|
            lo <= i < j < hi ==> (#[trigger] segs[i]).pos() < (#[trigger] segs[j]).pos(),
    ensures
        lo <= first_ge(segs, lo, hi, b) <= hi,
        forall|i: int| lo <= i < first_ge(segs, lo, hi, b) ==> (#[trigger] segs[i]).pos() < b,
        forall|i: int| first_ge(segs, lo, hi, b) <= i < hi ==> (#[trigger] segs[i]).pos() >= b,
    decreases hi - lo,
{
    if lo < hi && segs[lo].pos() < b {
        lemma_first_ge_props(segs, lo + 1, hi, b);
        let m = first_ge(segs, lo, hi, b);
        assert forall|i: int| m <= i < hi implies (#[trigger] segs[i]).pos() >= b by {
            if i == lo {
            } else {
                assert(segs[i].pos() >= b);
            }
        }
    }
}

/// Whether `[lo, hi)` is a well-formed view of the region of `4^h` positions
/// starting at `base`: the region is aligned and inside the tree, and the
/// listed segments all fall inside it.
pub open spec fn region_ok(
    segs: Seq<Segment>,
    next: int,
    lo: int,
    hi: int,
    base: int,
    h: int,
) -> bool {
    &&& segs_wf(segs, next)
    &&& 0 <= next <= TREE_SPAN
    &&& 0 <= h <= 24
    &&& 0 <= lo <= hi <= segs.len()
    &&& 0 <= base
    &&& base % pow4(h) == 0
    &&& base + pow4(h) <= TREE_SPAN
    &&& forall|i: int|
        lo <= i < hi ==> base <= (#[trigger] segs[i]).pos() && segs[i].end() <= base + pow4(h)
}

/// Whether the region of `4^h` positions at `base` is exactly covered by its
/// first listed segment.
pub open spec fn region_exact(segs: Seq<Segment>, lo: int, hi: int, base: int, h: int) -> bool {
    lo < hi && segs[lo].pos() == base && segs[lo].height() == h
}

/// The hash of the region of `4^h` positions starting at `base`, of which
/// the segments `[lo, hi)` lie inside.
///
/// An exactly-covering segment contributes its stored hash.  An empty region
/// is padding: `one` where the tree has moved wholly past it (or the tree is
/// empty, in which case the whole tree hashes as sealed padding), `zero`
/// where it is yet to come.  Any other region is an internal node combining
/// its four quarters.
pub open spec fn region_hash(
    segs: Seq<Segment>,
    next: int,
    lo: int,
    hi: int,
    base: int,
    h: int,
) -> Seq<u8>
    decreases h, 1int,
{
    if region_exact(segs, lo, hi, base, h) {
        segs[lo].content_hash()
    } else if lo >= hi {
        if next == 0 {
            one_hash()
        } else if base + pow4(h) <= next {
            one_hash()
        } else if base >= next {
            zero_hash()
        } else {
            children_hash(segs, next, lo, hi, base, h)
        }
    } else {
        children_hash(segs, next, lo, hi, base, h)
    }
}

/// The hash of an internal node at height `h` over `base`, combining the
/// hashes of its four quarters.
pub open spec fn children_hash(
    segs: Seq<Segment>,
    next: int,
    lo: int,
    hi: int,
    base: int,
    h: int,
) -> Seq<u8>
    decreases h, 0int,
{
    if h <= 0 {
        zero_hash()
    } else {
        let q = pow4(h - 1);
        let m1 = first_ge(segs, lo, hi, base + q);
        let m2 = first_ge(segs, m1, hi, base + 2 * q);
        let m3 = first_ge(segs, m2, hi, base + 3 * q);
        node_hash_of(
            h,
            region_hash(segs, next, lo, m1, base, h - 1),
            region_hash(segs, next, m1, m2, base + q, h - 1),
            region_hash(segs, next, m2, m3, base + 2 * q, h - 1),
            region_hash(segs, next, m3, hi, base + 3 * q, h - 1),
        )
    }
}

/// The sum of two multiples of a positive `s` is a multiple of `s`.
pub proof fn lemma_mod_sum_zero(x: int, y: int, s: int)
    requires
        s > 0,
        x % s == 0,
        y % s == 0,
    ensures
        (x + y) % s == 0,
{
    vstd::arithmetic::div_mod::lemma_add_mod_noop(x, y, s);
    vstd::arithmetic::div_mod::lemma_small_mod(0, s as nat);
}

/// Two multiples of a positive `s` are at least `s` apart.
pub proof fn lemma_aligned_step(x: int, y: int, s: int)
    requires
        s > 0,
        x % s == 0,
        y % s == 0,
        x < y,
    ensures
        x + s <= y,
{
    lemma_fundamental_div_mod(x, s);
    lemma_fundamental_div_mod(y, s);
    let a = x / s;
    let b = y / s;
    assert(x + s <= y) by (nonlinear_arith)
        requires
            s > 0,
            x == s * a,
            y == s * b,
            x < y,
    ;
}

/// Lower powers of four divide higher ones; and anything aligned to the
/// higher power is aligned to the lower.
pub proof fn lemma_pow4_align(x: int, a: int, b: int)
    requires
        0 <= a <= b,
        x % pow4(b) == 0,
    ensures
        x % pow4(a) == 0,
    decreases b - a,
{
    if a < b {
        lemma_pow4_pos(b - 1);
        lemma_pow4_pos(a);
        lemma_fundamental_div_mod(x, pow4(b));
        let k = x / pow4(b);
        assert(x == pow4(b) * k);
        assert(pow4(b) * k == pow4(b - 1) * (4 * k)) by (nonlinear_arith)
            requires
                pow4(b) == 4 * pow4(b - 1),
        ;
        lemma_mod_multiples_basic(4 * k, pow4(b - 1));
        assert(x % pow4(b - 1) == 0);
        lemma_pow4_align(x, a, b - 1);
    }
}

/// In a non-exact region at height `h >= 1`, the four quarters are
/// themselves well-formed regions, split at the `first_ge` indices.
pub proof fn lemma_children_ok(
    segs: Seq<Segment>,
    next: int,
    lo: int,
    hi: int,
    base: int,
    h: int,
)
    requires
        region_ok(segs, next, lo, hi, base, h),
        !region_exact(segs, lo, hi, base, h),
        h >= 1,
    ensures
        ({
            let q = pow4(h - 1);
            let m1 = first_ge(segs, lo, hi, base + q);
            let m2 = first_ge(segs, m1, hi, base + 2 * q);
            let m3 = first_ge(segs, m2, hi, base + 3 * q);
            &&& lo <= m1 <= m2 <= m3 <= hi
            &&& region_ok(segs, next, lo, m1, base, h - 1)
            &&& region_ok(segs, next, m1, m2, base + q, h - 1)
            &&& region_ok(segs, next, m2, m3, base + 2 * q, h - 1)
            &&& region_ok(segs, next, m3, hi, base + 3 * q, h - 1)
        }),
{
    let q = pow4(h - 1);
    lemma_pow4_pos(h - 1);
    lemma_wf_pos_increasing(segs, next);
    let m1 = first_ge(segs, lo, hi, base + q);
    lemma_first_ge_props(segs, lo, hi, base + q);
    let m2 = first_ge(segs, m1, hi, base + 2 * q);
    lemma_first_ge_props(segs, m1, hi, base + 2 * q);
    let m3 = first_ge(segs, m2, hi, base + 3 * q);
    lemma_first_ge_props(segs, m2, hi, base + 3 * q);

    // The quarter bases are aligned to pow4(h - 1).
    lemma_pow4_align(base, h - 1, h);
    lemma_mod_multiples_basic(1, q);
    lemma_mod_multiples_basic(2, q);
    lemma_mod_multiples_basic(3, q);
    assert(q % q == 0) by {
        assert(q == 1 * q);
    }
    lemma_mod_sum_zero(base, q, q);
    lemma_mod_sum_zero(base, 2 * q, q);
    lemma_mod_sum_zero(base, 3 * q, q);

    // Every listed segment ends by the quarter boundary it starts under.
    assert forall|i: int| lo <= i < m1 implies (#[trigger] segs[i]).end() <= base + q by {
        lemma_no_straddle(segs, next, lo, hi, base, h, i, 1);
    }
    assert forall|i: int| m1 <= i < m2 implies (#[trigger] segs[i]).end() <= base + 2 * q by {
        lemma_no_straddle(segs, next, lo, hi, base, h, i, 2);
    }
    assert forall|i: int| m2 <= i < m3 implies (#[trigger] segs[i]).end() <= base + 3 * q by {
        lemma_no_straddle(segs, next, lo, hi, base, h, i, 3);
    }
    assert forall|i: int| m3 <= i < hi implies (#[trigger] segs[i]).end() <= base + 4 * q by {
        lemma_pow4_pos(segs[i].height());
        lemma_no_straddle(segs, next, lo, hi, base, h, i, 4);
    }
}

/// A listed segment of a non-exact region never straddles a quarter
/// boundary: if it starts below `base + k * q`, it also ends by it.
proof fn lemma_no_straddle(
    segs: Seq<Segment>,
    next: int,
    lo: int,
    hi: int,
    base: int,
    h: int,
    i: int,
    k: int,
)
    requires
        region_ok(segs, next, lo, hi, base, h),
        !region_exact(segs, lo, hi, base, h),
        h >= 1,
        lo <= i < hi,
        1 <= k <= 4,
        segs[i].pos() < base + k * pow4(h - 1),
    ensures
        segs[i].end() <= base + k * pow4(h - 1),
{
    let q = pow4(h - 1);
    lemma_pow4_pos(h - 1);
    lemma_wf_pos_increasing(segs, next);
    let s = segs[i];
    let boundary = base + k * q;
    if s.end() > boundary {
        // The segment straddles the boundary; show that is impossible.
        if s.height() <= h - 1 {
            // Its span divides the quarter span, so both its start and
            // the boundary are multiples of its span.
            lemma_pow4_pos(s.height());
            lemma_pow4_align(base, s.height(), h);
            lemma_pow4_align(q, s.height(), h - 1);
            lemma_fundamental_div_mod(q, s.span());
            let t = q / s.span();
            assert(q == s.span() * t);
            assert(k * q == (k * t) * s.span()) by (nonlinear_arith)
                requires
                    q == s.span() * t,
            ;
            assert((k * q) % s.span() == 0) by (nonlinear_arith)
                requires
                    s.span() > 0,
                    k * q == (k * t) * s.span(),
            ;
            assert(base % s.span() == 0);
            lemma_mod_sum_zero(base, k * q, s.span());
            lemma_aligned_step(s.pos(), boundary, s.span());
        } else {
            // Its span is at least the whole region, so it would cover the
            // region exactly, which the caller has excluded.
            lemma_pow4_increases(h, s.height());
            lemma_pow4_pos(h);
            if s.height() > h {
                lemma_pow4_increases(h + 1, s.height());
            }
            assert(s.height() == h);
            lemma_aligned_step_cover(segs, lo, hi, base, h, i);
        }
    }
}

/// A nonempty region of a single position is always exactly covered by its
/// segment.
pub proof fn lemma_h0_exact(segs: Seq<Segment>, next: int, lo: int, hi: int, base: int)
    requires
        region_ok(segs, next, lo, hi, base, 0),
        lo < hi,
    ensures
        region_exact(segs, lo, hi, base, 0),
{
    let s = segs[lo];
    lemma_pow4_pos(s.height());
    if s.height() >= 1 {
        lemma_pow4_increases(1, s.height());
    }
    assert(s.height() == 0);
    assert(s.pos() == base);
}

/// A listed segment of the region's own height must sit exactly at the
/// region's base and be the region's first segment, making the region
/// exactly covered.
proof fn lemma_aligned_step_cover(
    segs: Seq<Segment>,
    lo: int,
    hi: int,
    base: int,
    h: int,
    i: int,
)
    requires
        lo <= i < hi <= segs.len(),
        segs[i].wf(),
        segs[i].height() == h,
        base % pow4(h) == 0,
        base <= segs[i].pos(),
        segs[i].end() <= base + pow4(h),
        forall|x: int, y: int|
            lo <= x < y < hi ==> (#[trigger] segs[x]).pos() < (#[trigger] segs[y]).pos(),
        forall|x: int| lo <= x < hi ==> base <= (#[trigger] segs[x]).pos(),
    ensures
        region_exact(segs, lo, hi, base, h),
{
    lemma_pow4_pos(h);
    if segs[i].pos() > base {
        lemma_aligned_step(base, segs[i].pos(), pow4(h));
    }
    assert(segs[i].pos() == base);
    if i > lo {
        assert(segs[lo].pos() < segs[i].pos());
    }
    assert(i == lo);
}

/// Find the index of the first listed segment in `[lo, hi)` starting at or
/// after `b`.
pub fn first_ge_index(segs: &Vec<Segment>, lo: usize, hi: usize, b: u64) -> (m: usize)
    requires
        lo <= hi <= segs@.len(),
    ensures
        lo <= m <= hi,
        m == first_ge(segs@, lo as int, hi as int, b as int),
{
    let mut i: usize = lo;
    while i < hi && segs[i].position_value() < b
        invariant
            lo <= i <= hi <= segs@.len(),
            first_ge(segs@, lo as int, hi as int, b as int) == first_ge(
                segs@,
                i as int,
                hi as int,
                b as int,
            ),
        decreases hi - i,
    {
        i = i + 1;
    }
    i
}

/// Compute the hash of the region of `4^h` positions starting at `base`.
pub fn region_digest(
    segs: &Vec<Segment>,
    next: u64,
    lo: usize,
    hi: usize,
    base: u64,
    h: u8,
) -> (r: Digest)
    requires
        region_ok(segs@, next as int, lo as int, hi as int, base as int, h as int),
    ensures
        r@ == region_hash(segs@, next as int, lo as int, hi as int, base as int, h as int),
    decreases h,
{
    if lo < hi {
        let s0 = &segs[lo];
        if s0.position_value() == base && s0.height_value() == h {
            return s0.content_digest();
        }
    }
    proof {
        lemma_pow4_pos(h as int);
        lemma_pow4_increases(h as int, 24);
        lemma_span_values();
    }
    let span = pow4_u64(h);
    if lo >= hi {
        if next == 0 {
            return Digest::one();
        }
        if base + span <= next {
            return Digest::one();
        }
        if base >= next {
            return Digest::zero();
        }
    }
    proof {
        if h == 0 {
            if lo < hi {
                lemma_h0_exact(segs@, next as int, lo as int, hi as int, base as int);
            }
        }
        assert(h >= 1);
        lemma_children_ok(
            segs@,
            next as int,
            lo as int,
            hi as int,
            base as int,
            h as int,
        );
    }
    let q = pow4_u64(h - 1);
    let m1 = first_ge_index(segs, lo, hi, base + q);
    let m2 = first_ge_index(segs, m1, hi, base + 2 * q);
    let m3 = first_ge_index(segs, m2, hi, base + 3 * q);
    let r0 = region_digest(segs, next, lo, m1, base, h - 1);
    let r1 = region_digest(segs, next, m1, m2, base + q, h - 1);
    let r2 = region_digest(segs, next, m2, m3, base + 2 * q, h - 1);
    let r3 = region_digest(segs, next, m3, hi, base + 3 * q, h - 1);
    Digest::node(h, &r0, &r1, &r2, &r3)
}

/// `first_ge` reads only the segments' positions.
pub proof fn lemma_first_ge_congruent(
    s1: Seq<Segment>,
    s2: Seq<Segment>,
    lo: int,
    hi: int,
    b: int,
)
    requires
        s1.len() == s2.len(),
        forall|i: int| 0 <= i < s1.len() ==> (#[trigger] s1[i]).pos() == (#[trigger] s2[i]).pos(),
        0 <= lo,
        hi <= s1.len(),
    ensures
        first_ge(s1, lo, hi, b) == first_ge(s2, lo, hi, b),
    decreases hi - lo,
{
    if lo < hi {
        lemma_first_ge_congruent(s1, s2, lo + 1, hi, b);
    }
}

/// Region hashes read only each segment's position, height and hash: two
/// stores that agree on those agree on every region hash.  In particular,
/// collapsing a witnessed leaf into its bare hash leaves every region hash
/// unchanged.
pub proof fn lemma_region_hash_congruent(
    s1: Seq<Segment>,
    s2: Seq<Segment>,
    next: int,
    lo: int,
    hi: int,
    base: int,
    h: int,
)
    requires
        s1.len() == s2.len(),
        forall|i: int|
            0 <= i < s1.len() ==> (#[trigger] s1[i]).pos() == (#[trigger] s2[i]).pos()
                && s1[i].height() == s2[i].height() && s1[i].content_hash() == s2[i].content_hash(),
        0 <= lo <= hi <= s1.len(),
    ensures
        region_hash(s1, next, lo, hi, base, h) == region_hash(s2, next, lo, hi, base, h),
    decreases h, 1int,
{
    if region_exact(s1, lo, hi, base, h) {
    } else if lo >= hi {
        if next == 0 {
        } else if base + pow4(h) <= next {
        } else if base >= next {
        } else {
            lemma_children_hash_congruent(s1, s2, next, lo, hi, base, h);
        }
    } else {
        lemma_children_hash_congruent(s1, s2, next, lo, hi, base, h);
    }
}

/// Companion to [`lemma_region_hash_congruent`] for internal nodes.
pub proof fn lemma_children_hash_congruent(
    s1: Seq<Segment>,
    s2: Seq<Segment>,
    next: int,
    lo: int,
    hi: int,
    base: int,
    h: int,
)
    requires
        s1.len() == s2.len(),
        forall|i: int|
            0 <= i < s1.len() ==> (#[trigger] s1[i]).pos() == (#[trigger] s2[i]).pos()
                && s1[i].height() == s2[i].height() && s1[i].content_hash() == s2[i].content_hash(),
        0 <= lo <= hi <= s1.len(),
    ensures
        children_hash(s1, next, lo, hi, base, h) == children_hash(s2, next, lo, hi, base, h),
    decreases h, 0int,
{
    if h <= 0 {
    } else {
        let q = pow4(h - 1);
        let m1 = first_ge(s1, lo, hi, base + q);
        lemma_first_ge_congruent(s1, s2, lo, hi, base + q);
        lemma_first_ge_bounds(s1, lo, hi, base + q);
        let m2 = first_ge(s1, m1, hi, base + 2 * q);
        lemma_first_ge_congruent(s1, s2, m1, hi, base + 2 * q);
        lemma_first_ge_bounds(s1, m1, hi, base + 2 * q);
        let m3 = first_ge(s1, m2, hi, base + 3 * q);
        lemma_first_ge_congruent(s1, s2, m2, hi, base + 3 * q);
        lemma_first_ge_bounds(s1, m2, hi, base + 3 * q);
        lemma_region_hash_congruent(s1, s2, next, lo, m1, base, h - 1);
        lemma_region_hash_congruent(s1, s2, next, m1, m2, base + q, h - 1);
        lemma_region_hash_congruent(s1, s2, next, m2, m3, base + 2 * q, h - 1);
        lemma_region_hash_congruent(s1, s2, next, m3, hi, base + 3 * q, h - 1);
    }
}

/// The index that splits a window into positions below `b` and positions
/// at or above it is `first_ge`.
pub proof fn lemma_first_ge_char(segs: Seq<Segment>, lo: int, hi: int, b: int, m: int)
    requires
        0 <= lo <= m <= hi <= segs.len(),
        forall|x: int| lo <= x < m ==> (#[trigger] segs[x]).pos() < b,
        forall|x: int| m <= x < hi ==> (#[trigger] segs[x]).pos() >= b,
    ensures
        m == first_ge(segs, lo, hi, b),
    decreases m - lo,
{
    if lo == m {
        if lo < hi {
            assert(segs[lo].pos() >= b);
        }
    } else {
        assert(segs[lo].pos() < b);
        lemma_first_ge_char(segs, lo + 1, hi, b, m);
    }
}

/// `first_ge` stays within its bounds.
pub proof fn lemma_first_ge_bounds(segs: Seq<Segment>, lo: int, hi: int, b: int)
    requires
        0 <= lo <= hi,
    ensures
        lo <= first_ge(segs, lo, hi, b) <= hi,
    decreases hi - lo,
{
    if lo < hi && segs[lo].pos() < b {
        lemma_first_ge_bounds(segs, lo + 1, hi, b);
    }
}

} // verus!

//! Positions in the tree.
//!
//! A position is a 48-bit index below 4^24, read as three base-4-digit fields
//! of eight digits each: `epoch : block : commitment`.  A node at height `h`
//! spans `4^h` consecutive positions, and its span always starts at a
//! multiple of `4^h`.

use vstd::prelude::*;

verus! {

/// The number of leaf positions spanned by one block: 4^8.
pub const BLOCK_SPAN: u64 = 65536;

/// The number of leaf positions spanned by one epoch: 4^16.
pub const EPOCH_SPAN: u64 = 4294967296;

/// The total number of leaf positions in the tree: 4^24.
pub const TREE_SPAN: u64 = 281474976710656;

/// 4 raised to the given height.
pub open spec fn pow4(h: int) -> int
    decreases h,
{
    if h <= 0 {
        1
    } else {
        4 * pow4(h - 1)
    }
}

/// 4^h is monotonic in the height.
pub proof fn lemma_pow4_increases(h: int, k: int)
    requires
        0 <= h <= k,
    ensures
        pow4(h) <= pow4(k),
    decreases k,
{
    if h < k {
        lemma_pow4_increases(h, k - 1);
        lemma_pow4_pos(k - 1);
    }
}

/// 4^h is positive.
pub proof fn lemma_pow4_pos(h: int)
    ensures
        pow4(h) >= 1,
    decreases h,
{
    if h > 0 {
        lemma_pow4_pos(h - 1);
    }
}

/// 4^h is strictly monotonic in the height.
pub proof fn lemma_pow4_strict(h: int, k: int)
    requires
        0 <= h < k,
    ensures
        pow4(h) < pow4(k),
{
    lemma_pow4_increases(h, k - 1);
    lemma_pow4_pos(h);
}

/// The spans of the three tiers, and of the whole tree, as powers of four.
pub proof fn lemma_span_values()
    ensures
        pow4(8) == BLOCK_SPAN,
        pow4(16) == EPOCH_SPAN,
        pow4(24) == TREE_SPAN,
        pow4(23) * 4 == TREE_SPAN,
{
    reveal_with_fuel(pow4, 25);
}

/// Compute 4^h for heights up to 24.
pub fn pow4_u64(h: u8) -> (r: u64)
    requires
        h <= 24,
    ensures
        r == pow4(h as int),
{
    let mut r: u64 = 1;
    let mut i: u8 = 0;
    while i < h
        invariant
            i <= h <= 24,
            r == pow4(i as int),
            r <= TREE_SPAN,
        decreases h - i,
    {
        proof {
            lemma_pow4_increases(i as int + 1, 24);
            lemma_span_values();
        }
        r = r * 4;
        i = i + 1;
    }
    r
}

/// The base-4 digit of `pos` governing which child of a height-`h` node the
/// position falls under: digit 0 is the leftmost child.
pub open spec fn digit(pos: int, h: int) -> int {
    (pos / pow4(h - 1)) % 4
}

/// Inside an aligned region of height `h`, a position's digit at `h` names
/// the quarter the position falls in.
pub proof fn lemma_digit_bounds(p: int, base: int, h: int)
    requires
        1 <= h,
        0 <= base,
        base % pow4(h) == 0,
        base <= p < base + pow4(h),
    ensures
        0 <= digit(p, h) < 4,
        base + digit(p, h) * pow4(h - 1) <= p,
        p < base + (digit(p, h) + 1) * pow4(h - 1),
{
    let q = pow4(h - 1);
    lemma_pow4_pos(h - 1);
    assert(pow4(h) == 4 * q);
    vstd::arithmetic::div_mod::lemma_fundamental_div_mod(base, 4 * q);
    let m = base / (4 * q);
    assert(base == (4 * q) * m);
    let r = p - base;
    vstd::arithmetic::div_mod::lemma_fundamental_div_mod(r, q);
    vstd::arithmetic::div_mod::lemma_mod_division_less_than_divisor(r, q);
    let rd = r / q;
    let rr = r % q;
    assert(r == q * rd + rr);
    assert(0 <= rd < 4) by (nonlinear_arith)
        requires
            q > 0,
            r == q * rd + rr,
            0 <= rr < q,
            0 <= r < 4 * q,
    ;
    assert(p == q * (4 * m + rd) + rr) by (nonlinear_arith)
        requires
            base == (4 * q) * m,
            r == q * rd + rr,
            p == base + r,
    ;
    vstd::arithmetic::div_mod::lemma_div_multiples_vanish_fancy(4 * m + rd, rr, q);
    assert(p / q == 4 * m + rd);
    vstd::arithmetic::div_mod::lemma_mod_multiples_vanish(m, rd, 4);
    assert((4 * m + rd) % 4 == rd % 4);
    vstd::arithmetic::div_mod::lemma_small_mod(rd as nat, 4nat);
    assert(digit(p, h) == rd);
    assert(base + rd * q <= p && p < base + (rd + 1) * q) by (nonlinear_arith)
        requires
            p == base + r,
            r == q * rd + rr,
            0 <= rr < q,
    ;
}

/// Within an aligned window of size `q`, the remainder of `p` is its
/// offset from the window's start.
pub proof fn lemma_mod_from_aligned(p: int, a: int, q: int)
    requires
        q > 0,
        a % q == 0,
        a <= p < a + q,
    ensures
        p % q == p - a,
{
    vstd::arithmetic::div_mod::lemma_fundamental_div_mod(a, q);
    let m = a / q;
    assert(a == q * m);
    assert(p == q * m + (p - a));
    vstd::arithmetic::div_mod::lemma_mod_multiples_vanish(m, p - a, q);
    vstd::arithmetic::div_mod::lemma_small_mod((p - a) as nat, q as nat);
}

/// The base of the aligned window of size `4^h` holding `p` is aligned and
/// at most `p`.
pub proof fn lemma_level_base_aligned(p: int, h: int)
    requires
        0 <= p,
        0 <= h,
    ensures
        (p - (p % pow4(h))) % pow4(h) == 0,
        p - (p % pow4(h)) <= p,
        p < (p - (p % pow4(h))) + pow4(h),
{
    lemma_pow4_pos(h);
    vstd::arithmetic::div_mod::lemma_fundamental_div_mod(p, pow4(h));
    vstd::arithmetic::div_mod::lemma_mod_division_less_than_divisor(p, pow4(h));
    let m = p / pow4(h);
    assert(p - (p % pow4(h)) == pow4(h) * m);
    assert(pow4(h) * m == m * pow4(h)) by (nonlinear_arith);
    vstd::arithmetic::div_mod::lemma_mod_multiples_basic(m, pow4(h));
}

} // verus!

//! A single frontier tier: the unit of sealing.
//!
//! A tier is an 8-deep quad tree, so it holds at most `4^8 = 65536` leaves.
//! It accepts insertions exactly while it is unsealed and holds fewer than
//! 65536 items; it never seals itself when it fills — sealing is always an
//! explicit, idempotent step.

use vstd::prelude::*;
use crate::hash::Commitment;
use crate::hash::Digest;
use crate::position::BLOCK_SPAN;

verus! {

/// One item of a tier: a commitment kept for witnessing, or a bare hash.
#[derive(Clone, Copy, Debug)]
pub enum Item {
    /// A commitment kept in full.
    Kept(Commitment),
    /// Only a hash.
    Hashed(Digest),
}

/// A frontier tier holding up to 65536 items.
pub struct Tier {
    /// The items inserted so far, in insertion order.
    pub items: Vec<Item>,
    /// Whether the tier has been sealed.
    pub sealed: bool,
}

impl Tier {
    /// A tier is well formed while it never exceeds its capacity.
    pub open spec fn wf(&self) -> bool {
        1 <= self.items@.len() <= BLOCK_SPAN
    }

    /// Whether the tier still accepts insertions.
    pub open spec fn accepts(&self) -> bool {
        !self.sealed && self.items@.len() < BLOCK_SPAN
    }

    /// Create a new tier from its first item.
    pub fn new(item: Item) -> (tier: Tier)
        ensures
            tier.wf(),
            !tier.sealed,
            tier.items@.len() == 1,
            tier.items@[0] == item,
    {
        let mut items = Vec::new();
        items.push(item);
        Tier { items, sealed: false }
    }

    /// Insert an item, or hand it back if the tier is full or sealed.
    ///
    /// A full tier never seals itself: insertion into it fails until it is
    /// sealed explicitly and a caller a level up makes room.
    pub fn insert(&mut self, item: Item) -> (result: Result<(), Item>)
        requires
            old(self).wf(),
        ensures
            final(self).wf(),
            old(self).accepts() ==> result == Ok::<(), Item>(()) && final(self).items@ == old(
                self,
            ).items@.push(item) && final(self).sealed == old(self).sealed,
            !old(self).accepts() ==> result == Err::<(), Item>(item) && *final(self) == *old(self),
    {
        if self.sealed || self.items.len() >= BLOCK_SPAN as usize {
            return Err(item);
        }
        self.items.push(item);
        Ok(())
    }

    /// The index the next insertion would occupy, or `None` if the tier no
    /// longer accepts insertions.
    pub fn position(&self) -> (p: Option<u64>)
        requires
            self.wf(),
        ensures
            self.accepts() ==> p == Some(self.items@.len() as u64),
            !self.accepts() ==> p is None,
    {
        if self.sealed || self.items.len() >= BLOCK_SPAN as usize {
            None
        } else {
            Some(self.items.len() as u64)
        }
    }

    /// Whether insertion would fail.
    pub fn is_full(&self) -> (full: bool)
        requires
            self.wf(),
        ensures
            full <==> !self.accepts(),
    {
        self.sealed || self.items.len() >= BLOCK_SPAN as usize
    }

    /// Seal the tier.  Idempotent; returns whether it was already sealed.
    pub fn finalize(&mut self) -> (already: bool)
        requires
            old(self).wf(),
        ensures
            final(self).wf(),
            already == old(self).sealed,
            final(self).sealed,
            final(self).items@ == old(self).items@,
    {
        let already = self.sealed;
        self.sealed = true;
        already
    }

    /// Whether the tier has been sealed.
    pub fn is_finalized(&self) -> (sealed: bool)
        ensures
            sealed == self.sealed,
    {
        self.sealed
    }

    /// The focused item — the one most recently inserted — or `None` if
    /// the tier has been sealed.
    pub fn focus(&self) -> (r: Option<&Item>)
        requires
            self.wf(),
        ensures
            !self.sealed ==> (r matches Some(item) && *item == self.items@.last()),
            self.sealed ==> r is None,
    {
        if self.sealed {
            None
        } else {
            Some(&self.items[self.items.len() - 1])
        }
    }

    /// Replace the focused item, returning the previous one, or hand the
    /// item back untouched if the tier has been sealed.
    pub fn update(&mut self, item: Item) -> (previous: Option<Item>)
        requires
            old(self).wf(),
        ensures
            final(self).wf(),
            !old(self).sealed ==> (previous matches Some(replaced) && replaced == old(
                self,
            ).items@.last() && final(self).items@ == old(self).items@.update(
                old(self).items@.len() - 1,
                item,
            ) && !final(self).sealed),
            old(self).sealed ==> previous is None && *final(self) == *old(self),
    {
        if self.sealed {
            None
        } else {
            let at = self.items.len() - 1;
            let previous = self.items.remove(at);
            self.items.insert(at, item);
            proof {
                assert(self.items@ =~= old(self).items@.update(
                    old(self).items@.len() - 1,
                    item,
                ));
            }
            Some(previous)
        }
    }
}

/// The capacity law: an unsealed tier accepts an insertion exactly while it
/// holds fewer than 65536 items, so a fresh tier accepts exactly 65535
/// further insertions after its first item, and the insertion after that
/// hands the item back.
pub proof fn lemma_tier_capacity(tier: Tier, item: Item)
    requires
        tier.wf(),
        !tier.sealed,
    ensures
        tier.accepts() <==> tier.items@.len() < BLOCK_SPAN,
        tier.items@.len() == BLOCK_SPAN ==> !tier.accepts(),
{
}

} // verus!

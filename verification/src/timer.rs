//! Per-level timing hooks for recursive traversals.
//!
//! A caller's own recursive walk can invoke these hooks around its visitor
//! splits: start a timer before working on a node, split the timer when
//! descending into the two children, close a leaf into a record, and
//! combine the two children's records. The library only fixes the hook
//! interface; a clock-backed implementation lives with the caller, and
//! [`TreeTimerEmpty`] opts out of measuring entirely.

use vstd::prelude::*;

verus! {

/// The timing hooks a recursive traversal invokes. Users who do not want
/// the measuring provide [`TreeTimerEmpty`]; users who do provide their own
/// clock-backed implementation.
pub trait TreeTimerTrait: Sized {
    /// The record a finished subtree hands back up.
    type Bag;

    /// Combine the timer results from the two children.
    fn combine(a: Self::Bag, b: Self::Bag) -> Self::Bag;

    /// Close this timer at a leaf and produce its record.
    fn leaf_finish(self) -> Self::Bag;

    /// Start timing the current node.
    fn start(&mut self);

    /// Stop timing the current node and create the timers for the two
    /// children.
    fn next(self) -> (Self, Self);
}

/// The dummy version of the timer trait: measures nothing.
pub struct TreeTimerEmpty;

/// The dummy returned time record.
pub struct BagEmpty;

impl TreeTimerTrait for TreeTimerEmpty {
    type Bag = BagEmpty;

    fn combine(_a: BagEmpty, _b: BagEmpty) -> BagEmpty {
        BagEmpty
    }

    fn leaf_finish(self) -> BagEmpty {
        BagEmpty
    }

    fn start(&mut self) {
    }

    fn next(self) -> (Self, Self) {
        (TreeTimerEmpty, TreeTimerEmpty)
    }
}

} // verus!

//! Iteration over the records of a table.
use vstd::prelude::*;

verus! {

/// A record handed out by a table iterator: bytes borrowed from the table.
pub type Record<'a> = &'a [u8];

/// An iterator over records that borrow from the table for `'a`.
pub trait TableIterator<'a> {
    /// The iterator can take its next step.
    spec fn can_advance(&self) -> bool;

    fn next(&mut self) -> Option<Record<'a>>
        requires
            old(self).can_advance(),
    ;
}

} // verus!

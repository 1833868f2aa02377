//! The uniform positioned-cursor capability shared by every iterator in the
//! system: a current key and value, a validity flag, and an advancing step.
use vstd::prelude::*;

use crate::LsmError;

verus! {

/// A positioned cursor over sorted `(key, value)` entries. Invalid cursors
/// (past the end or over an empty range) must not be queried for their key or
/// value.
pub trait StorageIterator: Sized {
    /// Internal well-formedness of the cursor.
    spec fn inv(&self) -> bool;

    /// Whether the cursor stands on a live entry.
    spec fn sp_valid(&self) -> bool;

    /// The current key.
    spec fn sp_key(&self) -> Seq<u8>;

    /// The current value.
    spec fn sp_value(&self) -> Seq<u8>;

    /// How a successful `next` relates the cursor after the call to the one
    /// before it.
    spec fn sp_step(pre: Self, post: Self) -> bool;

    fn key(&self) -> (r: &[u8])
        requires
            self.inv(),
            self.sp_valid(),
        ensures
            r@ == self.sp_key(),
    ;

    fn value(&self) -> (r: &[u8])
        requires
            self.inv(),
            self.sp_valid(),
        ensures
            r@ == self.sp_value(),
    ;

    fn is_valid(&self) -> (r: bool)
        requires
            self.inv(),
        ensures
            r == self.sp_valid(),
    ;

    fn next(&mut self) -> (r: Result<(), LsmError>)
        requires
            old(self).inv(),
        ensures
            final(self).inv(),
            r is Ok ==> Self::sp_step(*old(self), *final(self)),
    ;

    /// Composite iterators report how many leaf cursors they drive; a leaf
    /// reports one.
    fn num_active_iterators(&self) -> (r: usize)
        ensures
            r >= 1,
    {
        1
    }
}

} // verus!

mod key_space_split;

pub use key_space_split::KeySpaceSpilt;

use vstd::prelude::*;
use crate::codec::Key;
use crate::request::Sender;
use crate::util::{Either, Error};

verus! {

/// A partitioning of the key space into contiguous ranges, each
/// governed by one sender. The key space is split into a left and a
/// right region at a boundary key; an `Either::Left` tag puts the new
/// sender on the region below the boundary, `Either::Right` on the
/// region at and above it.
pub trait Shard {
    type K: Key;
    type S: Sender;

    /// The structural invariant of the partition map.
    spec fn inv(&self) -> bool;

    /// Whether some sender governs `key`.
    spec fn covers(&self, key: Self::K) -> bool;

    /// Introduces `key` as a new partition boundary and assigns
    /// `sender` to the side the tag names; fails with a structural
    /// error when `key` is already a recorded boundary.
    fn split(&mut self, key: Self::K, sender: Either<Self::S>) -> (r: Result<(), Error>)
        requires
            old(self).inv(),
        ensures
            final(self).inv(),
    ;

    /// The sender governing the partition that contains `key`.
    fn key2node(&self, key: &Self::K) -> (r: &Self::S)
        requires
            self.inv(),
            self.covers(*key),
    ;
}

} // verus!

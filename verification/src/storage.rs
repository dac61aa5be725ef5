mod in_mem;

pub use in_mem::InMemEngine;

use vstd::prelude::*;
use crate::codec::{Key, Value};
use crate::util::Error;

verus! {

/// A storage engine over ordered keys: point writes, point reads,
/// deletes and ordered range scans.
pub trait Engine {
    type K: Key;
    type V: Value;

    /// The engine's structural invariant.
    spec fn inv(&self) -> bool;

    /// Stores `v` under `k`, replacing what was there.
    fn put(&mut self, k: Self::K, v: Self::V) -> (r: Result<(), Error>)
        requires
            old(self).inv(),
        ensures
            final(self).inv(),
    ;

    /// Removes whatever is stored under `k`.
    fn del(&mut self, k: &Self::K) -> (r: Result<(), Error>)
        requires
            old(self).inv(),
        ensures
            final(self).inv(),
    ;

    /// An owned copy of the value stored under `k`, so that it can be
    /// shipped to another node.
    fn get(&self, k: &Self::K) -> (r: Result<Option<Self::V>, Error>)
        requires
            self.inv(),
    ;

    /// Owned copies of the values with keys in `[lower, upper)`, in
    /// ascending key order.
    fn scan(&self, lower: &Self::K, upper: &Self::K) -> (r: Result<Vec<Self::V>, Error>)
        requires
            self.inv(),
    ;
}

/// An engine that can serve reads from a frozen point in time; no
/// operations are defined yet.
pub trait SnapshotEngine {

}

} // verus!

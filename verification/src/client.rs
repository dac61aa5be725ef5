use vstd::prelude::*;
use crate::txn::Txn;

verus! {

/// A compute-side caller: it opens transactions against the cluster
/// it was built over.
pub trait Client {
    type T: Txn;

    /// Opens a fresh transaction.
    fn begin(&mut self) -> Self::T;
}

/// A client whose transactions are interactive: operations are issued
/// one at a time against the cluster it wraps.
pub struct InteractiveTxnClient<C> {
    /// The cluster the client issues its operations against.
    pub cluster: C,
}

} // verus!

pub mod kv_ops;

use vstd::prelude::*;
use crate::node::Server;
use crate::util::Error;

verus! {

/// A transaction against a server: it runs in two phases, first
/// `execute`, then `commit` or `rollback`. The protocol's semantics
/// live with the server; the core only carries its operations.
pub trait Txn {
    type Server: Server;

    /// Phase one: run the transaction's operations.
    fn execute(&mut self, server: &Self::Server) -> Result<(), Error>;

    /// Phase two, on success: make the effects durable.
    fn commit(&mut self, server: &Self::Server) -> Result<(), Error>;

    /// Phase two, on failure: undo the effects.
    fn rollback(&mut self, server: &Self::Server) -> Result<(), Error>;
}

} // verus!

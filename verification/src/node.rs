use vstd::prelude::*;
use crate::request::{Request, Response};
use crate::shard::Shard;
use crate::util::Error;
use std::sync::Arc;

verus! {

/// The processing capability behind a receiver: it maps one request to
/// one result. `process_spec` names that mapping, so that what a
/// channel built over the node returns can be pinned down exactly.
pub trait Node {
    type Req: Request;
    type Res: Response;

    /// The request-to-result mapping this node implements.
    spec fn process_spec(&self, req: Self::Req) -> Result<Self::Res, Error>;

    /// Processes one request.
    fn process(&self, req: Self::Req) -> (r: Result<Self::Res, Error>)
        ensures
            r == self.process_spec(req),
    ;
}

/// A storage-side node that also owns shards and executes transaction
/// operations against them.
pub trait Server: Node + Sync {
    type S: Shard;
    type T;

    /// Makes the server responsible for a shard.
    fn register_shard(&mut self, s: Arc<Self::S>);

    /// Runs one transaction operation against this server.
    fn execute(&mut self, t: Self::T) -> Result<(), Error>;
}

} // verus!

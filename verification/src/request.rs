pub mod channel;

use vstd::prelude::*;
use crate::util::Error;

verus! {

/// A request payload: anything that can cross to the handler's side.
pub trait Request: Send {

}

/// A response payload: anything that can cross back to the caller.
pub trait Response: Send {

}

impl<T: Send> Request for T {

}

impl<T: Send> Response for T {

}

/// The caller-facing handle of a request channel: it carries a request
/// to the handler's side and hands the matched response back.
pub trait Sender: Sized {
    type Req: Request;
    type Res: Response;

    /// When the handle is in a state fit for sending; a fresh handle is,
    /// and `send` and `close` keep it so.
    spec fn send_ready(&self) -> bool;

    /// Carries `req` over and returns the response matched to it, or a
    /// transport error if the channel no longer forwards responses.
    fn send(&mut self, req: Self::Req) -> (r: Result<Self::Res, Error>)
        requires
            old(self).send_ready(),
        ensures
            final(self).send_ready(),
    ;

    /// Marks the handle terminated: the background drainer stops
    /// forwarding responses.
    fn close(&mut self)
        requires
            old(self).send_ready(),
        ensures
            final(self).send_ready(),
    ;
}

/// The handler-facing worker of a request channel: it pulls queued
/// requests and forwards each handler result as a response envelope.
pub trait Receiver {
    type Req: Request;
    type Res: Response;
    type N: crate::node::Node;

    /// When the worker can take a pass over its queues; a freshly
    /// connected worker can, and `collect_req` keeps it so.
    spec fn collect_ready(&self) -> bool;

    /// Processes the requests that are queued, forwarding one response
    /// envelope per request.
    fn collect_req(&mut self)
        requires
            old(self).collect_ready(),
        ensures
            final(self).collect_ready(),
    ;
}

} // verus!

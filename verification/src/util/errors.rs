use vstd::prelude::*;

verus! {

/// The failures the core can surface. Transport failures come out of a
/// sender, structural failures out of a split; a handler's own failure
/// travels inside the response envelope untouched.
#[derive(Debug, PartialEq, Eq)]
pub enum Error {
    TSOError(TSOError),
    RequestError(RequestError),
    ShardError(ShardError),
    Unknown,
}

/// A structural failure of the key-space router.
#[derive(Debug, PartialEq, Eq)]
pub enum ShardError {
    /// A split was attempted at a boundary that is already recorded;
    /// the payload is the rendering of the offending key.
    SplitError(String),
}

/// Failures of the timestamp oracle. The oracle defines no failures yet
/// and the core never constructs this; the one variant only keeps the
/// type inhabited until real kinds are added.
#[derive(Debug, PartialEq, Eq)]
pub enum TSOError {
    Unspecified,
}

/// A transport failure of the request channel.
#[derive(Debug, PartialEq, Eq)]
pub enum RequestError {
    /// The request queue no longer accepts envelopes; the payload
    /// describes what was refused.
    SendError(String),
}

impl From<ShardError> for Error {
    fn from(e: ShardError) -> Error {
        Error::ShardError(e)
    }
}

impl vstd::std_specs::convert::FromSpecImpl<ShardError> for Error {
    open spec fn obeys_from_spec() -> bool {
        true
    }

    open spec fn from_spec(e: ShardError) -> Error {
        Error::ShardError(e)
    }
}

impl From<RequestError> for Error {
    fn from(e: RequestError) -> Error {
        Error::RequestError(e)
    }
}

impl vstd::std_specs::convert::FromSpecImpl<RequestError> for Error {
    open spec fn obeys_from_spec() -> bool {
        true
    }

    open spec fn from_spec(e: RequestError) -> Error {
        Error::RequestError(e)
    }
}

} // verus!

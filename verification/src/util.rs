mod either;
mod errors;
mod future;

pub use either::Either;
pub use future::{poll_future_notify, Countdown, InPlaceFuture, PollAtWake, PollStep, PollerState};
pub use errors::{Error, RequestError, ShardError, TSOError};

mod cluster;
pub mod client;
pub mod codec;
pub mod node;
pub mod request;
pub mod shard;
pub mod storage;
pub mod txn;
pub mod util;

pub use cluster::Cluster;
pub use util::Either;

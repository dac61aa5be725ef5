use vstd::prelude::*;
use crate::codec::{Key, Value};

verus! {

/// One key-value operation carried inside a transaction.
pub enum Op<K: Key, V: Value> {
    Put(K, V),
    Get(K),
    Del(K),
    Scan(K, K),
    Commit,
    Rollback,
}

/// A batch of operations, in submission order.
pub struct Ops<K: Key, V: Value> {
    pub ops: Vec<Op<K, V>>,
}

/// The payload of a key-value transaction: either a prepared batch of
/// operations or an interactive session whose operations arrive one
/// at a time.
pub enum KVOps<K: Key, V: Value> {
    Ops(Ops<K, V>),
    InteractiveTxn,
}

} // verus!

//! The service interface: the fixed set of three operations a channel may
//! dispatch, and the server that answers them against one shared
//! [`KvStore`].
//!
//! The event loop outside the library guards the server with a
//! mutual-exclusion lock and holds it for exactly one call, so each call's
//! read-modify-write is atomic relative to all others; the contracts here
//! describe one such call.

use crate::store::KvStore;
use vstd::prelude::*;

verus! {

/// Key-value store service.
///
/// An implementor exposes its store as a mathematical map through
/// [`Node::store_model`], and each operation is pinned down against that
/// model. Operations never fail: absence of a key is a normal result.
pub trait Node: Sized {
    /// The implementor's store, as a mathematical map.
    spec fn store_model(&self) -> Map<Seq<char>, Seq<char>>;

    /// Gets the associated value.
    fn get(&self, key: String) -> (r: Option<String>)
        ensures
            match r {
                Some(v) => self.store_model().contains_key(key@) && v@ == self.store_model()[key@],
                None => !self.store_model().contains_key(key@),
            },
    ;

    /// Inserts the key-value pair into the store, returning the value it
    /// displaced.
    fn insert(&mut self, key: String, value: String) -> (prev: Option<String>)
        ensures
            final(self).store_model() == old(self).store_model().insert(key@, value@),
            match prev {
                Some(v) => old(self).store_model().contains_key(key@) && v@ == old(
                    self,
                ).store_model()[key@],
                None => !old(self).store_model().contains_key(key@),
            },
    ;

    /// Removes the key-value pair from the store, returning the value that
    /// was removed.
    fn remove(&mut self, key: String) -> (removed: Option<String>)
        ensures
            final(self).store_model() == old(self).store_model().remove(key@),
            match removed {
                Some(v) => old(self).store_model().contains_key(key@) && v@ == old(
                    self,
                ).store_model()[key@],
                None => !old(self).store_model().contains_key(key@) && final(self).store_model()
                    == old(self).store_model(),
            },
    ;
}

/// Answers the three store operations against one shared [`KvStore`].
/// Stateless beyond that store: pure request/response semantics.
pub struct NodeServer {
    store: KvStore,
}

impl NodeServer {
    /// Creates a new key-value store node server over the given store.
    pub fn new(store: KvStore) -> (r: Self)
        ensures
            r.store_model() == store@,
    {
        NodeServer { store }
    }
}

impl Node for NodeServer {
    closed spec fn store_model(&self) -> Map<Seq<char>, Seq<char>> {
        self.store@
    }

    fn get(&self, key: String) -> (r: Option<String>) {
        self.store.get(key.as_str())
    }

    fn insert(&mut self, key: String, value: String) -> (prev: Option<String>) {
        self.store.insert(key, value)
    }

    fn remove(&mut self, key: String) -> (removed: Option<String>) {
        self.store.remove(key.as_str())
    }
}

} // verus!

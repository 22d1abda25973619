//! A single-node, in-memory key-value store served over an RPC transport.
//!
//! The verified core is the server side: the shared [`store::KvStore`]
//! mapping, the [`node::Node`] service interface with its
//! [`node::NodeServer`] implementation, and the
//! [`admission::Admission`] controller that caps how many connections
//! one address may hold open and how many channels are served at once.
//! The wire transport and the event loop live outside the library and
//! drive it through these types.

pub mod admission;
pub mod node;
pub mod repl;
pub mod store;

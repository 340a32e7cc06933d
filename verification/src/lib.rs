//! A doubly-ended list whose nodes keep one link word each: the exclusive-or of
//! the addresses of the two neighbors.
//!
//! Nodes live in a slot store that the list owns, and an address is a position
//! in that store. Walking the list in either direction recovers the next
//! address from a node's link word and the address the walk came from.
//!
//! - `link`: the link algebra, `pack`, `unpack` and `mix`.
//! - `node`: a node, one element and one link word.
//! - `store`: the slots that hold the nodes of one list.
//! - `list`: the list and the link invariant that every list keeps.
//! - `walk`: walks over the links, and why they come through.
//! - `iter`: reading a list from both ends.
//! - `eq`, `order`: comparing lists element by element.
//! - `ops`, `laws`: runs of operations, and what holds of all of them.

pub mod eq;
pub mod iter;
pub mod laws;
pub mod link;
pub mod list;
pub mod node;
pub mod ops;
pub mod order;
pub mod store;
pub mod walk;

pub use iter::Iter;
pub use link::NodeRef;
pub use list::LinkedList;

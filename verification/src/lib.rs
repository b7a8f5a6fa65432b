//! A consistent-hashing ring.
//!
//! Nodes are placed at several positions of a 64-bit hash space, and an item
//! is served by the node at the first position at or after the item's own
//! hash, wrapping round to the smallest position at the end. Adding or
//! removing a node moves only the items that the node serves.
//!
//! - [`ring`] holds the ring itself, [`ConsistentHash`], over an ordered map.
//! - [`node`] says what a node or an item has to offer: [`ToBytes`].
//! - [`digest`] and [`placement`] derive positions from bytes.
//! - [`successor`] defines which position serves a hash.
//! - [`model`] is the ring as a mathematical value, in whose terms every
//!   operation is stated.
//! - [`membership`], [`stability`] and [`history`] prove what follows: when
//!   the count is the number of nodes, what a lookup answers and how little
//!   a change disturbs it, and what a sequence of changes leaves behind.
//!
//! One thing is taken on trust: the BLAKE2s digest of the `blake2` crate,
//! of which only its name is known here.

pub mod digest;
pub mod error;
pub mod history;
pub mod membership;
pub mod model;
pub mod node;
pub mod placement;
pub mod ring;
pub mod stability;
pub mod successor;

pub use error::ConsistentError;
pub use node::ToBytes;
pub use ring::ConsistentHash;

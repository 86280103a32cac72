//! A transactional overlay of pending storage changes.
//!
//! The overlay buffers writes in front of a backing store. Writes can be
//! grouped into arbitrarily nested transactions, each of which is either
//! committed into its parent or rolled back as a whole.
//!
//! * [`changeset`] holds the overlay itself, [`value`] the versions of a
//!   single key's value.
//! * [`model`] says what every operation means on maps, sets and sequences;
//!   the contracts of the operations are stated over it.
//! * [`preservation`], [`laws`], [`runs`] and [`scopes`] prove what holds of
//!   the model: its invariant, and the laws that relate the operations.
//! * [`bytes`], [`keys`], [`entries`], [`index_set`] and [`unique`] are the
//!   building blocks: the order of keys, sorted vectors and their search.

pub mod bytes;
pub mod changeset;
pub mod entries;
pub mod index_set;
pub mod keys;
pub mod laws;
pub mod model;
pub mod preservation;
pub mod runs;
pub mod scopes;
pub mod unique;
pub mod value;

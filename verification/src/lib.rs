//! Core of a peer-to-peer collaborative text editor: a LOGOOT-style sequence
//! CRDT. Replicas allocate dense, totally ordered position identifiers without
//! coordination and keep a document as a strictly sorted sequence of atoms.

pub mod atom;
pub mod document;
pub mod id;
pub mod laws;
pub mod node;
pub mod position;
pub mod range;

pub use atom::Atom;
pub use document::{DocError, Document};
pub use id::Id;
pub use node::Event;
pub use position::Position;
pub use range::{Point, Range};

//! A left-leaning red-black tree keyed by `u32`, which records every
//! structural step of an insertion or a deletion as an immutable snapshot,
//! so that the evolution of the tree can be played back step by step.
//!
//! - `node`: nodes, their mathematical model, rotations and color flips.
//! - `timeline`: the path to the node being rewritten, snapshot capture,
//!   and the timeline with its cursor and status.
//! - `tree`: the tree itself, lookups and insertion.
//! - `removal`, `removal_shape`: deletion, and why it keeps the shape.
//! - `trace`: the exact tree and snapshots each operation produces.
//! - `controller`: the facade a user interface drives.
//! - `laws`: properties that hold across operations.

pub mod node;
pub mod timeline;
pub mod tree;
pub mod removal;
pub mod removal_shape;
pub mod trace;
pub mod controller;
pub mod laws;

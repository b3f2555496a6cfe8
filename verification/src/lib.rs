//! A patch-queue engine over a content-addressed commit graph: per
//! branch, ordered stacks of patch identifiers that can be pushed onto
//! the branch tip, popped off, folded, hidden, or dropped, with the
//! whole state serialized into the body of an ordinary commit and kept
//! consistent with the real ancestry of every tracked branch.
//!
//! The crate holds the metadata engine alone: the stores and queues,
//! the branch table with its acquire/release discipline, the text
//! encoding, the persistence and undo protocols, the load-time
//! verification, and the per-operation transition logic. Repository
//! access itself (creating commits, cherry-picking, resetting,
//! updating references) is the caller's, fed by the plans and guided
//! by the decisions these modules compute.

pub mod cmd;
pub mod error;
pub mod laws;
pub mod meta;
pub mod print;
pub mod text;

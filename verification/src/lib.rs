//! Skipfields: liveness metadata over a fixed-length index space.
//!
//! Every encoding is viewed as a `Seq<bool>` with one entry per slot, `true`
//! meaning that the slot is skipped. The contracts of all encodings are stated
//! over that view, with the spec functions of [`model`].

pub mod model;
pub mod runs;
pub mod bits;
pub mod bool_skipfield;
pub mod lcjc_skipfield;
pub mod bitmask_skipfield;
pub mod seq_skipfield;
pub mod lockless_bool_skipfield;
pub mod laws;

pub use bool_skipfield::BoolSkipfield;
pub use lcjc_skipfield::LCJCSkipfield;
pub use bitmask_skipfield::{BitmaskSkipfield, BitmaskSkipfieldIter};
pub use seq_skipfield::Skipfield;
pub use lockless_bool_skipfield::LockLessBoolSkipfield;

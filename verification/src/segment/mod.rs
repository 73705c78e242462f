//! Segments: the immutable-sealed plus one-mutable-appendable storage model.

pub mod appendable;
pub mod codec;
pub mod id_map;
pub mod sealed;
pub mod search;
pub mod set;

pub use appendable::AppendableSegment;
pub use id_map::IdMap;
pub use sealed::SealedSegment;
pub use set::SegmentSet;

//! The engine behind a vector database with git-like versioning.
//!
//! The crate holds the index, segment, versioning, payload and persistence logic.
//! It performs no I/O: callers hand it plain values and act on what it returns.

use vstd::prelude::*;

pub mod bitmap;
pub mod collection;
pub mod distance;
pub mod durable;
pub mod error;
pub mod id;
pub mod idset;
pub mod index;
pub mod jsonl;
pub mod laws;
pub mod lines;
pub mod ordered;
pub mod payload;
pub mod persist;
pub mod quantization;
pub mod query;
pub mod ranking;
pub mod segment;
pub mod sorting;
pub mod text;
pub mod vector;
pub mod version;

pub use collection::Collection;
pub use collection::CollectionConfig;
pub use collection::CompactionPolicy;
pub use collection::PointRecord;
pub use collection::ScoredGlobal;
pub use distance::DistanceKernel;
pub use distance::Kernel;
pub use distance::Metric;
pub use durable::FsyncMode;
pub use durable::WalOp;
pub use error::CoreError;
pub use id::GlobalId;
pub use id::LocalId;
pub use id::PointId;
pub use id::SegmentId;
pub use id::VersionId;
pub use index::brute_force_topk;
pub use index::FilterContext;
pub use index::FlatIndex;
pub use index::HnswConfig;
pub use index::HnswIndex;
pub use index::Index;
pub use index::ScoredPoint;
pub use index::SearchParams;
pub use index::SoftDeleteSet;
pub use ordered::OrderedF32;
pub use ordered::OrderedF64;
pub use segment::AppendableSegment;
pub use segment::SealedSegment;
pub use segment::SegmentSet;
pub use vector::VectorStorage;

verus! {

/// The crate version, surfaced so binaries can report a single source of truth.
pub const VERSION: &'static str = "0.1.0";

} // verus!

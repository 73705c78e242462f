//! Versioning: the git-like commit history over immutable segments.
//!
//! A *commit* is a [`Manifest`] listing the sealed segments and a frozen deletion vector;
//! snapshots are cheap because segments are shared. Time-travel resolves a
//! [`VersionSelector`] to a manifest and searches exactly its segment set; branches and
//! tags are movable pointers; diff is a set operation; restore is a forward commit
//! re-pointing at an old segment set (history is preserved).

pub mod deletion;
pub mod manifest;
pub mod names;
pub mod policy;
pub mod store;
pub mod timeline;

pub use deletion::DeletionVector;
pub use manifest::Manifest;
pub use manifest::SegmentRef;
pub use names::NameMap;
pub use policy::Clock;
pub use policy::SystemClock;
pub use policy::TriggerEvaluator;
pub use policy::VersioningPolicy;
pub use store::Diff;
pub use store::GcReport;
pub use store::RetentionRules;
pub use store::VersionError;
pub use store::VersionSelector;
pub use store::VersionStore;
pub use store::VersionStoreSnapshot;

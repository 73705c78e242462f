//! Strongly-typed identifier newtypes.
//!
//! These are deliberately distinct types (rather than bare integers) so the compiler
//! catches mixing id spaces: segment-local ids, collection-global ids and version ids
//! all flow through the same code paths.
//!
//! - [`PointId`] / [`LocalId`]: segment-local `u32` row indices. [`PointId`] is the
//!   space the index works in; [`LocalId`] names the same physical row from the
//!   storage side.
//! - [`GlobalId`]: a collection-global `u64`, allocated monotonically by the collection.
//! - [`SegmentId`]: a monotonic `u64` naming an immutable segment.
//! - [`VersionId`]: a monotonic `u64` naming a committed version.

use vstd::prelude::*;
use vstd::string::StringExecFns;

use crate::text;

verus! {

/// Segment-local node id as seen by the index layer.
#[derive(Clone, Copy, PartialEq, Eq, PartialOrd, Ord, Hash, Debug, Structural)]
pub struct PointId(pub u32);

impl PointId {
    /// Wraps a raw integer in this id type.
    pub fn new(raw: u32) -> (id: PointId)
        ensures
            id == PointId(raw),
    {
        PointId(raw)
    }

    /// Returns the underlying raw integer.
    pub fn get(self) -> (raw: u32)
        ensures
            raw == self.0,
    {
        self.0
    }

    /// Renders the id as the type's name around its decimal value.
    pub fn display(self) -> (text: String)
        ensures
            text@ == "PointId("@ + text::decimal(self.0 as nat) + ")"@,
    {
        let digits = text::decimal_text(self.0 as u64);
        "PointId(".to_owned().concat(digits.as_str()).concat(")")
    }
}

impl From<u32> for PointId {
    fn from(raw: u32) -> (id: PointId) {
        PointId(raw)
    }
}

impl vstd::std_specs::convert::FromSpecImpl<u32> for PointId {
    open spec fn obeys_from_spec() -> bool {
        true
    }

    open spec fn from_spec(raw: u32) -> PointId {
        PointId(raw)
    }
}

impl From<PointId> for u32 {
    fn from(id: PointId) -> (raw: u32) {
        id.0
    }
}

impl vstd::std_specs::convert::FromSpecImpl<PointId> for u32 {
    open spec fn obeys_from_spec() -> bool {
        true
    }

    open spec fn from_spec(id: PointId) -> u32 {
        id.0
    }
}

/// Segment-local physical row id, as seen by the storage layer.
#[derive(Clone, Copy, PartialEq, Eq, PartialOrd, Ord, Hash, Debug, Structural)]
pub struct LocalId(pub u32);

impl LocalId {
    /// Wraps a raw integer in this id type.
    pub fn new(raw: u32) -> (id: LocalId)
        ensures
            id == LocalId(raw),
    {
        LocalId(raw)
    }

    /// Returns the underlying raw integer.
    pub fn get(self) -> (raw: u32)
        ensures
            raw == self.0,
    {
        self.0
    }

    /// Renders the id as the type's name around its decimal value.
    pub fn display(self) -> (text: String)
        ensures
            text@ == "LocalId("@ + text::decimal(self.0 as nat) + ")"@,
    {
        let digits = text::decimal_text(self.0 as u64);
        "LocalId(".to_owned().concat(digits.as_str()).concat(")")
    }
}

impl From<u32> for LocalId {
    fn from(raw: u32) -> (id: LocalId) {
        LocalId(raw)
    }
}

impl vstd::std_specs::convert::FromSpecImpl<u32> for LocalId {
    open spec fn obeys_from_spec() -> bool {
        true
    }

    open spec fn from_spec(raw: u32) -> LocalId {
        LocalId(raw)
    }
}

impl From<LocalId> for u32 {
    fn from(id: LocalId) -> (raw: u32) {
        id.0
    }
}

impl vstd::std_specs::convert::FromSpecImpl<LocalId> for u32 {
    open spec fn obeys_from_spec() -> bool {
        true
    }

    open spec fn from_spec(id: LocalId) -> u32 {
        id.0
    }
}

/// Collection-global, monotonically-allocated point id; the unit of versioning.
#[derive(Clone, Copy, PartialEq, Eq, PartialOrd, Ord, Hash, Debug, Structural)]
pub struct GlobalId(pub u64);

impl GlobalId {
    /// Wraps a raw integer in this id type.
    pub fn new(raw: u64) -> (id: GlobalId)
        ensures
            id == GlobalId(raw),
    {
        GlobalId(raw)
    }

    /// Returns the underlying raw integer.
    pub fn get(self) -> (raw: u64)
        ensures
            raw == self.0,
    {
        self.0
    }

    /// Renders the id as the type's name around its decimal value.
    pub fn display(self) -> (text: String)
        ensures
            text@ == "GlobalId("@ + text::decimal(self.0 as nat) + ")"@,
    {
        let digits = text::decimal_text(self.0);
        "GlobalId(".to_owned().concat(digits.as_str()).concat(")")
    }
}

impl From<u64> for GlobalId {
    fn from(raw: u64) -> (id: GlobalId) {
        GlobalId(raw)
    }
}

impl vstd::std_specs::convert::FromSpecImpl<u64> for GlobalId {
    open spec fn obeys_from_spec() -> bool {
        true
    }

    open spec fn from_spec(raw: u64) -> GlobalId {
        GlobalId(raw)
    }
}

impl From<GlobalId> for u64 {
    fn from(id: GlobalId) -> (raw: u64) {
        id.0
    }
}

impl vstd::std_specs::convert::FromSpecImpl<GlobalId> for u64 {
    open spec fn obeys_from_spec() -> bool {
        true
    }

    open spec fn from_spec(id: GlobalId) -> u64 {
        id.0
    }
}

/// Monotonic id of an immutable segment.
#[derive(Clone, Copy, PartialEq, Eq, PartialOrd, Ord, Hash, Debug, Structural)]
pub struct SegmentId(pub u64);

impl SegmentId {
    /// Wraps a raw integer in this id type.
    pub fn new(raw: u64) -> (id: SegmentId)
        ensures
            id == SegmentId(raw),
    {
        SegmentId(raw)
    }

    /// Returns the underlying raw integer.
    pub fn get(self) -> (raw: u64)
        ensures
            raw == self.0,
    {
        self.0
    }

    /// Renders the id as the type's name around its decimal value.
    pub fn display(self) -> (text: String)
        ensures
            text@ == "SegmentId("@ + text::decimal(self.0 as nat) + ")"@,
    {
        let digits = text::decimal_text(self.0);
        "SegmentId(".to_owned().concat(digits.as_str()).concat(")")
    }
}

impl From<u64> for SegmentId {
    fn from(raw: u64) -> (id: SegmentId) {
        SegmentId(raw)
    }
}

impl vstd::std_specs::convert::FromSpecImpl<u64> for SegmentId {
    open spec fn obeys_from_spec() -> bool {
        true
    }

    open spec fn from_spec(raw: u64) -> SegmentId {
        SegmentId(raw)
    }
}

impl From<SegmentId> for u64 {
    fn from(id: SegmentId) -> (raw: u64) {
        id.0
    }
}

impl vstd::std_specs::convert::FromSpecImpl<SegmentId> for u64 {
    open spec fn obeys_from_spec() -> bool {
        true
    }

    open spec fn from_spec(id: SegmentId) -> u64 {
        id.0
    }
}

/// Monotonic id of a committed version.
#[derive(Clone, Copy, PartialEq, Eq, PartialOrd, Ord, Hash, Debug, Structural)]
pub struct VersionId(pub u64);

impl VersionId {
    /// Wraps a raw integer in this id type.
    pub fn new(raw: u64) -> (id: VersionId)
        ensures
            id == VersionId(raw),
    {
        VersionId(raw)
    }

    /// Returns the underlying raw integer.
    pub fn get(self) -> (raw: u64)
        ensures
            raw == self.0,
    {
        self.0
    }

    /// Renders the id as the type's name around its decimal value.
    pub fn display(self) -> (text: String)
        ensures
            text@ == "VersionId("@ + text::decimal(self.0 as nat) + ")"@,
    {
        let digits = text::decimal_text(self.0);
        "VersionId(".to_owned().concat(digits.as_str()).concat(")")
    }
}

impl From<u64> for VersionId {
    fn from(raw: u64) -> (id: VersionId) {
        VersionId(raw)
    }
}

impl vstd::std_specs::convert::FromSpecImpl<u64> for VersionId {
    open spec fn obeys_from_spec() -> bool {
        true
    }

    open spec fn from_spec(raw: u64) -> VersionId {
        VersionId(raw)
    }
}

impl From<VersionId> for u64 {
    fn from(id: VersionId) -> (raw: u64) {
        id.0
    }
}

impl vstd::std_specs::convert::FromSpecImpl<VersionId> for u64 {
    open spec fn obeys_from_spec() -> bool {
        true
    }

    open spec fn from_spec(id: VersionId) -> u64 {
        id.0
    }
}

impl PointId {
    /// Converts to the matching storage-side [`LocalId`] (same physical row).
    pub fn to_local(self) -> (id: LocalId)
        ensures
            id.0 == self.0,
    {
        LocalId::new(self.0)
    }
}

impl LocalId {
    /// Converts to the matching index-side [`PointId`] (same physical row).
    pub fn to_point(self) -> (id: PointId)
        ensures
            id.0 == self.0,
    {
        PointId::new(self.0)
    }
}

} // verus!

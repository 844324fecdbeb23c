//! Verified core of an Android package repackager.
//!
//! The library owns the logic of the operation: a path-scoped streaming XML
//! attribute engine (`xml`), manifest identity rewriting with the
//! provider-authority cascade (`manifest`), launcher-icon discovery and
//! best-resolution selection (`icons`), the repackaging pipeline state
//! machine (`pipeline`), and the tool/artifact path composition (`paths`).
//! External collaborators — process spawning, the filesystem, and the raster
//! image codec — live outside the library and hand it plain values.
use vstd::prelude::*;

pub mod icons;
pub mod manifest;
pub mod paths;
pub mod pipeline;
pub mod text;
pub mod xml;

verus! {

/// The failures the library itself can report.
#[derive(Debug, Clone, Copy, PartialEq, Eq)]
pub enum RepackError {
    /// The XML stream cannot be parsed; carries the character offset at
    /// which scanning failed.
    MalformedDocument { offset: usize },
    /// A required attribute yielded no match at its element path.
    AttributeNotFound,
    /// An external tool failed to start or reported failure.
    ToolInvocation,
    /// A filesystem operation failed.
    Io,
}

/// Read-only summary of an unpacked package.
#[derive(Debug, PartialEq, Eq)]
pub struct ApkInfo {
    pub package_name: Vec<char>,
    pub display_name: Vec<char>,
    /// Path of the highest-resolution matching icon, empty when none exists.
    pub icon_path: Vec<char>,
}

} // verus!

//! Change tracking types.
//!
//! The version-control collaborator diffs two trees and reports, for each
//! touched file, its path and the kind of change.  The diff itself is I/O
//! and lives outside this library; here are the types it reports with and
//! the classification of raw delta kinds into reported change kinds.

use vstd::prelude::*;

verus! {

/// The kind of change a file underwent between two revisions.
#[derive(Debug, Clone, PartialEq, Eq, Structural)]
pub enum ChangeType {
    Added,
    Modified,
    Deleted,
    Renamed,
}

impl ChangeType {
    /// The one-letter code for this change kind: A, M, D or R.
    pub fn label(&self) -> (r: String)
        ensures
            (self is Added ==> r@ == "A"@),
            (self is Modified ==> r@ == "M"@),
            (self is Deleted ==> r@ == "D"@),
            (self is Renamed ==> r@ == "R"@),
    {
        match self {
            ChangeType::Added => String::from_str("A"),
            ChangeType::Modified => String::from_str("M"),
            ChangeType::Deleted => String::from_str("D"),
            ChangeType::Renamed => String::from_str("R"),
        }
    }
}

/// One file the diff reports, with its change kind.
#[derive(Debug, Clone)]
pub struct ChangedFile {
    pub path: String,
    pub change_type: ChangeType,
}

impl ChangedFile {
    /// Packs a reported path and change kind together.
    pub fn new(path: String, change_type: ChangeType) -> (r: Self)
        ensures
            r.path@ == path@,
            r.change_type == change_type,
    {
        Self { path, change_type }
    }
}

/// The raw kind of one diff entry, as the version-control collaborator
/// reports it.
#[derive(Debug, Clone, Copy, PartialEq, Eq, Structural)]
pub enum DeltaKind {
    Added,
    Deleted,
    Modified,
    Renamed,
    Copied,
    Other,
}

/// The reported change kind for a raw delta kind: a copy counts as an
/// addition, and any other kind is left out of the report.
pub open spec fn change_type_spec(d: DeltaKind) -> Option<ChangeType> {
    match d {
        DeltaKind::Added => Some(ChangeType::Added),
        DeltaKind::Deleted => Some(ChangeType::Deleted),
        DeltaKind::Modified => Some(ChangeType::Modified),
        DeltaKind::Renamed => Some(ChangeType::Renamed),
        DeltaKind::Copied => Some(ChangeType::Added),
        DeltaKind::Other => None,
    }
}

/// Classifies one raw delta kind; `None` means the entry is skipped.
pub fn change_type_of(d: DeltaKind) -> (r: Option<ChangeType>)
    ensures
        r == change_type_spec(d),
{
    match d {
        DeltaKind::Added => Some(ChangeType::Added),
        DeltaKind::Deleted => Some(ChangeType::Deleted),
        DeltaKind::Modified => Some(ChangeType::Modified),
        DeltaKind::Renamed => Some(ChangeType::Renamed),
        DeltaKind::Copied => Some(ChangeType::Added),
        DeltaKind::Other => None,
    }
}

/// Whether the diff callback should read the old path (a deletion) rather
/// than the new path for this entry.
pub fn uses_old_path(d: DeltaKind) -> (r: bool)
    ensures
        r == (d is Deleted),
{
    match d {
        DeltaKind::Deleted => true,
        _ => false,
    }
}

} // verus!

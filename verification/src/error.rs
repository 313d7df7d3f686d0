//! The planner's errors.

use vstd::prelude::*;

verus! {

/// Why a plan cannot be made.
#[derive(Debug, Clone, PartialEq, Eq)]
pub enum AffectError {
    /// A glob pattern of the policy is not accepted: it does not parse or
    /// build, or is beyond the planner's limits; `cause` says why.
    InvalidGlob { pattern: String, cause: String },
    /// `--profile` names a CI profile that the policy does not define.
    UnknownCiProfile { profile: String },
    /// A requested package set is not defined by the policy.
    UnknownPackageSet { set: String },
    /// A `[paths]` rule maps a changed file to a package outside the workspace.
    UnknownMappedPackage { path: String, package: String },
    /// A CI task has a blank id.
    MissingTaskId,
    /// A CI task has a blank run command.
    MissingTaskRun { id: String },
    /// `--stage` was given but the plan has no CI profile.
    StageWithoutProfile,
    /// A package manifest path has no parent directory.
    NoManifestParent { package: String },
}

/// An error with its text fields taken as character sequences; the cause of
/// an invalid glob, a message for people, is left out.
pub enum ErrorView {
    InvalidGlob(Seq<char>),
    UnknownCiProfile(Seq<char>),
    UnknownPackageSet(Seq<char>),
    UnknownMappedPackage(Seq<char>, Seq<char>),
    MissingTaskId,
    MissingTaskRun(Seq<char>),
    StageWithoutProfile,
    NoManifestParent(Seq<char>),
}

impl View for AffectError {
    type V = ErrorView;

    open spec fn view(&self) -> ErrorView {
        match self {
            AffectError::InvalidGlob { pattern, .. } => ErrorView::InvalidGlob(pattern@),
            AffectError::UnknownCiProfile { profile } => ErrorView::UnknownCiProfile(profile@),
            AffectError::UnknownPackageSet { set } => ErrorView::UnknownPackageSet(set@),
            AffectError::UnknownMappedPackage { path, package } => ErrorView::UnknownMappedPackage(
                path@,
                package@,
            ),
            AffectError::MissingTaskId => ErrorView::MissingTaskId,
            AffectError::MissingTaskRun { id } => ErrorView::MissingTaskRun(id@),
            AffectError::StageWithoutProfile => ErrorView::StageWithoutProfile,
            AffectError::NoManifestParent { package } => ErrorView::NoManifestParent(package@),
        }
    }
}

} // verus!

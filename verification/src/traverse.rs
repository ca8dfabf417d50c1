//! Decisions of the publishing traversal: whether a workspace crate met while
//! walking the dependency graph is to be published or skipped, and why. The
//! walk itself gathers change and version facts from its surroundings and
//! hands them in as plain values.

use vstd::prelude::*;

verus! {

/// Why a crate is skipped rather than published. Skipped crates are always
/// dependent ones.
#[derive(Copy, Clone, PartialEq, Eq, Structural, Debug)]
pub enum SkippedReason {
    /// Nothing changed since the last release.
    Unchanged,
    /// A production crate is not published automatically unless that was
    /// asked for.
    DeniedAutopublishOfProductionCrate,
}

/// How a crate entered the publishing set.
#[derive(Clone, Copy, PartialEq, Eq, Structural, Debug)]
pub enum Kind {
    /// Initially selected by the user.
    UserSelection,
    /// A changed dependency of a user-selected crate that thus needs
    /// publishing.
    DependencyOfUserSelection,
}

/// What is to happen to one crate.
#[derive(Clone, Copy, PartialEq, Eq, Structural, Debug)]
pub enum Mode {
    ToBePublished,
    Skipped { reason: SkippedReason },
}

/// Decides what happens to a dependency met during the traversal: a changed
/// pre-release crate is published, a changed production crate only when
/// production crates were asked for, and an unchanged crate is skipped.
pub fn classify_dependency(change_found: bool, is_pre_release: bool, add_production_crates: bool) -> (m:
    Mode)
    ensures
        m == (if change_found {
            if is_pre_release || add_production_crates {
                Mode::ToBePublished
            } else {
                Mode::Skipped { reason: SkippedReason::DeniedAutopublishOfProductionCrate }
            }
        } else {
            Mode::Skipped { reason: SkippedReason::Unchanged }
        }),
{
    if change_found {
        if is_pre_release || add_production_crates {
            Mode::ToBePublished
        } else {
            Mode::Skipped { reason: SkippedReason::DeniedAutopublishOfProductionCrate }
        }
    } else {
        Mode::Skipped { reason: SkippedReason::Unchanged }
    }
}

/// Decides what happens to a user-selected crate itself: changed means
/// published, unchanged means skipped.
pub fn classify_user_selection(change_found: bool) -> (m: Mode)
    ensures
        m == (if change_found {
            Mode::ToBePublished
        } else {
            Mode::Skipped { reason: SkippedReason::Unchanged }
        }),
{
    if change_found {
        Mode::ToBePublished
    } else {
        Mode::Skipped { reason: SkippedReason::Unchanged }
    }
}

} // verus!

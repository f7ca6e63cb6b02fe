//! The decisions of the build service, separated from the I/O that surrounds
//! them: whether a new-pipeline request may proceed, whether a running
//! compilation job must be cancelled, and what follows a compiler's exit.

use vstd::prelude::*;
use crate::status::ProjectStatus;

verus! {

/// The verdict on a request to start a pipeline for a project version.
#[derive(Clone, Debug, PartialEq, Eq)]
pub enum RequestCheck {
    /// No project with that id exists.
    UnknownProject,
    /// The request names another version than the project's latest, which is
    /// carried here.
    VersionMismatch(i64),
    /// The version matches but its compilation has not succeeded yet.
    NotYetCompiled,
    /// The version matches and is compiled: the pipeline may start.
    Accepted,
}

/// Validates a new-pipeline request against the project's stored version and
/// status: the project must exist, the requested version must be its latest,
/// and that version must have compiled successfully — checked in that order.
pub fn check_pipeline_request(
    status: Option<(i64, ProjectStatus)>,
    requested_version: i64,
) -> (r: RequestCheck)
    ensures
        status matches Option::None ==> r == RequestCheck::UnknownProject,
        status matches Option::Some(vs) ==> ({
            &&& vs.0 != requested_version ==> r == RequestCheck::VersionMismatch(vs.0)
            &&& (vs.0 == requested_version && !(vs.1 matches ProjectStatus::Success)) ==> r
                == RequestCheck::NotYetCompiled
            &&& (vs.0 == requested_version && vs.1 matches ProjectStatus::Success) ==> r
                == RequestCheck::Accepted
        }),
{
    match status {
        Option::None => RequestCheck::UnknownProject,
        Option::Some((version, st)) => {
            if version != requested_version {
                RequestCheck::VersionMismatch(version)
            } else {
                match st {
                    ProjectStatus::Success => RequestCheck::Accepted,
                    _ => RequestCheck::NotYetCompiled,
                }
            }
        },
    }
}

/// The two stages of one compilation job.
#[derive(Clone, Copy, Debug, PartialEq, Eq, Structural)]
pub enum JobStage {
    /// The SQL-to-Rust compiler is running.
    Sql,
    /// Cargo is building the generated crate.
    Rust,
}

/// Whether a running job must be cancelled, given the freshly polled project
/// record: it must when the project is gone, when its version moved on, or
/// when its status is no longer the compiling marker.
pub fn should_cancel_job(
    job_version: i64,
    descr: Option<(i64, ProjectStatus)>,
) -> (r: bool)
    ensures
        descr matches Option::None ==> r,
        descr matches Option::Some(vs) ==> r == (vs.0 != job_version || !(vs.1 matches
            ProjectStatus::Compiling)),
{
    match descr {
        Option::None => true,
        Option::Some((version, st)) => {
            if version != job_version {
                true
            } else {
                match st {
                    ProjectStatus::Compiling => false,
                    _ => true,
                }
            }
        },
    }
}

/// What the compiler task does after a job's process finishes.
#[derive(Clone, Copy, Debug, PartialEq, Eq, Structural)]
pub enum ExitAction {
    /// The first stage succeeded: start the second.
    StartRustStage,
    /// The second stage succeeded: record success.
    MarkSuccess,
    /// The stage failed: record its error output.
    MarkError,
}

/// The next step after a compiler process exits (or its wait fails, which
/// counts as an unsuccessful exit): a successful first stage starts the
/// second, a successful second stage is final success, anything else records
/// the failure.
pub fn exit_action(stage: JobStage, exited_ok: bool) -> (r: ExitAction)
    ensures
        exited_ok && stage == JobStage::Sql ==> r == ExitAction::StartRustStage,
        exited_ok && stage == JobStage::Rust ==> r == ExitAction::MarkSuccess,
        !exited_ok ==> r == ExitAction::MarkError,
{
    if exited_ok {
        match stage {
            JobStage::Sql => ExitAction::StartRustStage,
            JobStage::Rust => ExitAction::MarkSuccess,
        }
    } else {
        ExitAction::MarkError
    }
}

} // verus!

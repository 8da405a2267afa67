//! The backup and restore pipelines.
//!
//! A snapshot pins the tenant, builds a workspace, dumps the database,
//! copies the full-resolution images, packages one archive, and deletes
//! the workspace and archive on every exit path before the pin is
//! released.  A restore routes the uploaded parts by extension, is
//! validated before anything destructive happens, and never reports a
//! failed replay as success.  The shell performs each step's outside
//! work and feeds the outcome back into the session machines here.

use vstd::prelude::*;

use crate::errors::Error;
use crate::images::spec_allowed_ext;
use crate::images::is_allowed_image_ext;
use crate::images::split_filename;
use crate::strings::split_all;
use crate::strings::str_eq;

verus! {

/// Where one uploaded part is written.
#[derive(Clone, Copy, PartialEq, Eq, Structural, Debug)]
pub enum PartDest {
    /// A `.sql` part: the workspace root.
    DumpRoot,
    /// An image part: the workspace's images subfolder.
    Images,
    /// Anything else: refused.
    Rejected,
}

/// The routing of one part name: exactly one dot, then by extension.
pub open spec fn spec_route(name: Seq<char>) -> PartDest {
    let parts = split_all(name, '.');
    if parts.len() != 2 {
        PartDest::Rejected
    } else if spec_allowed_ext(parts[1]) {
        PartDest::Images
    } else if parts[1] == "sql"@ {
        PartDest::DumpRoot
    } else {
        PartDest::Rejected
    }
}

/// Routes one uploaded part by its file name.
pub fn route_part(name: &str) -> (r: PartDest)
    ensures
        r == spec_route(name@),
{
    match split_filename(name) {
        None => PartDest::Rejected,
        Some(parts) => {
            let (_stem, ext) = parts;
            if is_allowed_image_ext(ext.as_str()) {
                PartDest::Images
            } else if str_eq(ext.as_str(), "sql") {
                PartDest::DumpRoot
            } else {
                PartDest::Rejected
            }
        },
    }
}

/// An acceptable restore upload: every part routes somewhere, and the
/// fixed dump file is among them.
pub open spec fn spec_upload_ok(names: Seq<Seq<char>>) -> bool {
    &&& forall|i: int| 0 <= i < names.len() ==> spec_route(#[trigger] names[i]) != PartDest::Rejected
    &&& exists|i: int| 0 <= i < names.len() && names[i] == "dump_file.sql"@
}

/// Validates a restore upload by its part names, before any destructive
/// step: a part with a disallowed extension, or a missing dump part,
/// rejects the whole upload and the live schema is never touched.
pub fn validate_restore_upload(names: &Vec<String>) -> (r: Result<(), Error>)
    ensures
        r is Ok <==> spec_upload_ok(names.deep_view()),
        r is Err ==> r->Err_0 == Error::Validation,
{
    let n = names.len();
    let mut has_dump = false;
    let mut i: usize = 0;
    while i < n
        invariant
            i <= n,
            n == names@.len(),
            forall|k: int|
                0 <= k < i ==> spec_route(#[trigger] names.deep_view()[k]) != PartDest::Rejected,
            has_dump ==> exists|k: int|
                0 <= k < i && #[trigger] names.deep_view()[k] == "dump_file.sql"@,
            !has_dump ==> forall|k: int|
                0 <= k < i ==> #[trigger] names.deep_view()[k] != "dump_file.sql"@,
        decreases n - i,
    {
        proof {
            assert(names.deep_view()[i as int] == names@[i as int]@);
        }
        let dest = route_part(names[i].as_str());
        if matches!(dest, PartDest::Rejected) {
            proof {
                assert(spec_route(names.deep_view()[i as int]) == PartDest::Rejected);
            }
            return Err(Error::Validation);
        }
        if str_eq(names[i].as_str(), "dump_file.sql") {
            has_dump = true;
            proof {
                assert(names.deep_view()[i as int] == "dump_file.sql"@);
            }
        }
        i += 1;
    }
    if has_dump {
        Ok(())
    } else {
        Err(Error::Validation)
    }
}

/// The phases of a snapshot, in order; after the packaging step the
/// pipeline always runs the cleanup tail, success or not.
#[derive(Clone, Copy, PartialEq, Eq, Structural, Debug)]
pub enum SnapshotPhase {
    /// Pinned; the workspace is about to be created.
    Start,
    WorkspaceReady,
    Dumped,
    Copied,
    /// Cleanup tail: remove the workspace.
    CleanupWorkspace,
    /// Cleanup tail: remove the archive file.
    CleanupArchive,
    /// Cleanup tail: release the pin.
    Unpin,
    Finished,
}

/// The outside work the shell performs next for a snapshot session.
#[derive(Clone, Copy, PartialEq, Eq, Structural, Debug)]
pub enum SnapshotAction {
    CreateWorkspace,
    RunDump,
    CopyImages,
    BuildArchive,
    RemoveWorkspace,
    RemoveArchive,
    ReleasePin,
    /// The session is over; the payload says whether it succeeded.
    Finished(bool),
}

/// A snapshot session: the phase, whether every productive step has
/// succeeded so far, and the outstanding cleanup obligations.
#[derive(Clone, Copy, PartialEq, Eq, Structural, Debug)]
pub struct SnapshotSession {
    pub phase: SnapshotPhase,
    pub ok: bool,
    pub workspace_exists: bool,
    pub archive_exists: bool,
    pub pinned: bool,
}

/// The cleanup obligations are discharged in the cleanup tail: from the
/// workspace cleanup on no workspace remains, then no archive, and a
/// finished session holds nothing at all.
pub open spec fn snapshot_wf(s: SnapshotSession) -> bool {
    &&& ((s.phase == SnapshotPhase::CleanupArchive || s.phase == SnapshotPhase::Unpin || s.phase
        == SnapshotPhase::Finished) ==> !s.workspace_exists)
    &&& ((s.phase == SnapshotPhase::Unpin || s.phase == SnapshotPhase::Finished)
        ==> !s.archive_exists)
    &&& (s.phase == SnapshotPhase::Finished ==> !s.pinned)
}

/// How many steps a session still has before it finishes.
pub open spec fn snapshot_rank(p: SnapshotPhase) -> nat {
    match p {
        SnapshotPhase::Start => 7,
        SnapshotPhase::WorkspaceReady => 6,
        SnapshotPhase::Dumped => 5,
        SnapshotPhase::Copied => 4,
        SnapshotPhase::CleanupWorkspace => 3,
        SnapshotPhase::CleanupArchive => 2,
        SnapshotPhase::Unpin => 1,
        SnapshotPhase::Finished => 0,
    }
}

/// The next outside action of a session.
pub open spec fn spec_snapshot_action(s: SnapshotSession) -> SnapshotAction {
    match s.phase {
        SnapshotPhase::Start => SnapshotAction::CreateWorkspace,
        SnapshotPhase::WorkspaceReady => SnapshotAction::RunDump,
        SnapshotPhase::Dumped => SnapshotAction::CopyImages,
        SnapshotPhase::Copied => SnapshotAction::BuildArchive,
        SnapshotPhase::CleanupWorkspace => SnapshotAction::RemoveWorkspace,
        SnapshotPhase::CleanupArchive => SnapshotAction::RemoveArchive,
        SnapshotPhase::Unpin => SnapshotAction::ReleasePin,
        SnapshotPhase::Finished => SnapshotAction::Finished(s.ok),
    }
}

/// The session after the shell reports one action's outcome.  A failed
/// productive step jumps to the cleanup tail; the tail itself runs
/// unconditionally and ignores outcomes.
pub open spec fn spec_snapshot_advance(s: SnapshotSession, succeeded: bool) -> SnapshotSession {
    match s.phase {
        SnapshotPhase::Start => SnapshotSession {
            phase: if succeeded {
                SnapshotPhase::WorkspaceReady
            } else {
                SnapshotPhase::CleanupWorkspace
            },
            ok: s.ok && succeeded,
            workspace_exists: true,
            ..s
        },
        SnapshotPhase::WorkspaceReady => SnapshotSession {
            phase: if succeeded {
                SnapshotPhase::Dumped
            } else {
                SnapshotPhase::CleanupWorkspace
            },
            ok: s.ok && succeeded,
            ..s
        },
        SnapshotPhase::Dumped => SnapshotSession {
            phase: if succeeded {
                SnapshotPhase::Copied
            } else {
                SnapshotPhase::CleanupWorkspace
            },
            ok: s.ok && succeeded,
            ..s
        },
        SnapshotPhase::Copied => SnapshotSession {
            phase: SnapshotPhase::CleanupWorkspace,
            ok: s.ok && succeeded,
            archive_exists: true,
            ..s
        },
        SnapshotPhase::CleanupWorkspace => SnapshotSession {
            phase: SnapshotPhase::CleanupArchive,
            workspace_exists: false,
            ..s
        },
        SnapshotPhase::CleanupArchive => SnapshotSession {
            phase: SnapshotPhase::Unpin,
            archive_exists: false,
            ..s
        },
        SnapshotPhase::Unpin => SnapshotSession { phase: SnapshotPhase::Finished, pinned: false, ..s },
        SnapshotPhase::Finished => s,
    }
}

impl SnapshotSession {
    /// A fresh session for a tenant whose pin is held.
    pub fn begin() -> (r: SnapshotSession)
        ensures
            r.phase == SnapshotPhase::Start,
            r.ok,
            !r.workspace_exists,
            !r.archive_exists,
            r.pinned,
            snapshot_wf(r),
    {
        SnapshotSession {
            phase: SnapshotPhase::Start,
            ok: true,
            workspace_exists: false,
            archive_exists: false,
            pinned: true,
        }
    }

    /// The outside work to perform next.
    pub fn next_action(&self) -> (r: SnapshotAction)
        ensures
            r == spec_snapshot_action(*self),
    {
        match self.phase {
            SnapshotPhase::Start => SnapshotAction::CreateWorkspace,
            SnapshotPhase::WorkspaceReady => SnapshotAction::RunDump,
            SnapshotPhase::Dumped => SnapshotAction::CopyImages,
            SnapshotPhase::Copied => SnapshotAction::BuildArchive,
            SnapshotPhase::CleanupWorkspace => SnapshotAction::RemoveWorkspace,
            SnapshotPhase::CleanupArchive => SnapshotAction::RemoveArchive,
            SnapshotPhase::Unpin => SnapshotAction::ReleasePin,
            SnapshotPhase::Finished => SnapshotAction::Finished(self.ok),
        }
    }

    /// Feeds back the outcome of the action just performed.
    pub fn advance(&mut self, succeeded: bool)
        requires
            old(self).phase != SnapshotPhase::Finished,
            snapshot_wf(*old(self)),
        ensures
            *final(self) == spec_snapshot_advance(*old(self), succeeded),
            snapshot_wf(*final(self)),
            snapshot_rank(final(self).phase) < snapshot_rank(old(self).phase),
            final(self).ok ==> old(self).ok,
    {
        let next = match self.phase {
            SnapshotPhase::Start => SnapshotSession {
                phase: if succeeded {
                    SnapshotPhase::WorkspaceReady
                } else {
                    SnapshotPhase::CleanupWorkspace
                },
                ok: self.ok && succeeded,
                workspace_exists: true,
                ..*self
            },
            SnapshotPhase::WorkspaceReady => SnapshotSession {
                phase: if succeeded {
                    SnapshotPhase::Dumped
                } else {
                    SnapshotPhase::CleanupWorkspace
                },
                ok: self.ok && succeeded,
                ..*self
            },
            SnapshotPhase::Dumped => SnapshotSession {
                phase: if succeeded {
                    SnapshotPhase::Copied
                } else {
                    SnapshotPhase::CleanupWorkspace
                },
                ok: self.ok && succeeded,
                ..*self
            },
            SnapshotPhase::Copied => SnapshotSession {
                phase: SnapshotPhase::CleanupWorkspace,
                ok: self.ok && succeeded,
                archive_exists: true,
                ..*self
            },
            SnapshotPhase::CleanupWorkspace => SnapshotSession {
                phase: SnapshotPhase::CleanupArchive,
                workspace_exists: false,
                ..*self
            },
            SnapshotPhase::CleanupArchive => SnapshotSession {
                phase: SnapshotPhase::Unpin,
                archive_exists: false,
                ..*self
            },
            SnapshotPhase::Unpin => SnapshotSession {
                phase: SnapshotPhase::Finished,
                pinned: false,
                ..*self
            },
            SnapshotPhase::Finished => *self,
        };
        *self = next;
    }
}

/// Running a session through a sequence of outcomes.
pub open spec fn spec_snapshot_run(s: SnapshotSession, outcomes: Seq<bool>) -> SnapshotSession
    decreases outcomes.len(),
{
    if outcomes.len() == 0 {
        s
    } else {
        spec_snapshot_run(spec_snapshot_advance(s, outcomes[0]), outcomes.drop_first())
    }
}

/// Law (cleanup on every exit path): wherever the outside steps fail,
/// a session driven through enough outcomes always finishes, and a
/// finished session holds no workspace, no partial archive and no pin.
pub proof fn lemma_snapshot_cleanup(s: SnapshotSession, outcomes: Seq<bool>)
    requires
        snapshot_wf(s),
        outcomes.len() >= snapshot_rank(s.phase),
    ensures
        snapshot_wf(spec_snapshot_run(s, outcomes)),
        spec_snapshot_run(s, outcomes).phase == SnapshotPhase::Finished,
        !spec_snapshot_run(s, outcomes).workspace_exists,
        !spec_snapshot_run(s, outcomes).archive_exists,
        !spec_snapshot_run(s, outcomes).pinned,
    decreases outcomes.len(),
{
    if outcomes.len() == 0 {
    } else {
        lemma_snapshot_cleanup(spec_snapshot_advance(s, outcomes[0]), outcomes.drop_first());
    }
}

/// The phases of a restore's destructive stretch, entered only after
/// the upload has been validated.
#[derive(Clone, Copy, PartialEq, Eq, Structural, Debug)]
pub enum RestorePhase {
    /// Upload validated; the schema is about to be dropped.
    Validated,
    Dropped,
    Recreated,
    Granted,
    Replayed,
    /// Some step failed; the database stays as that step left it.
    Failed,
}

/// The outside work the shell performs next for a restore session.
#[derive(Clone, Copy, PartialEq, Eq, Structural, Debug)]
pub enum RestoreAction {
    DropSchema,
    CreateSchema,
    GrantOwnership,
    RunReplay,
    /// The session is over; the payload says whether it succeeded.
    Report(bool),
}

/// A restore session over the destructive stretch: drop, recreate,
/// grant, replay.  There is no rollback; a failure leaves the database
/// as the failing step left it, and is always reported as a failure.
#[derive(Clone, Copy, PartialEq, Eq, Structural, Debug)]
pub struct RestoreSession {
    pub phase: RestorePhase,
}

pub open spec fn spec_restore_action(s: RestoreSession) -> RestoreAction {
    match s.phase {
        RestorePhase::Validated => RestoreAction::DropSchema,
        RestorePhase::Dropped => RestoreAction::CreateSchema,
        RestorePhase::Recreated => RestoreAction::GrantOwnership,
        RestorePhase::Granted => RestoreAction::RunReplay,
        RestorePhase::Replayed => RestoreAction::Report(true),
        RestorePhase::Failed => RestoreAction::Report(false),
    }
}

pub open spec fn spec_restore_advance(s: RestoreSession, succeeded: bool) -> RestoreSession {
    if !succeeded {
        RestoreSession { phase: RestorePhase::Failed }
    } else {
        match s.phase {
            RestorePhase::Validated => RestoreSession { phase: RestorePhase::Dropped },
            RestorePhase::Dropped => RestoreSession { phase: RestorePhase::Recreated },
            RestorePhase::Recreated => RestoreSession { phase: RestorePhase::Granted },
            RestorePhase::Granted => RestoreSession { phase: RestorePhase::Replayed },
            _ => s,
        }
    }
}

impl RestoreSession {
    /// A session for an upload that passed validation.
    pub fn begin() -> (r: RestoreSession)
        ensures
            r.phase == RestorePhase::Validated,
    {
        RestoreSession { phase: RestorePhase::Validated }
    }

    pub fn next_action(&self) -> (r: RestoreAction)
        ensures
            r == spec_restore_action(*self),
    {
        match self.phase {
            RestorePhase::Validated => RestoreAction::DropSchema,
            RestorePhase::Dropped => RestoreAction::CreateSchema,
            RestorePhase::Recreated => RestoreAction::GrantOwnership,
            RestorePhase::Granted => RestoreAction::RunReplay,
            RestorePhase::Replayed => RestoreAction::Report(true),
            RestorePhase::Failed => RestoreAction::Report(false),
        }
    }

    /// Feeds back the outcome of the step just performed.
    pub fn advance(&mut self, succeeded: bool)
        requires
            old(self).phase != RestorePhase::Replayed,
            old(self).phase != RestorePhase::Failed,
        ensures
            *final(self) == spec_restore_advance(*old(self), succeeded),
            !succeeded ==> final(self).phase == RestorePhase::Failed,
    {
        if !succeeded {
            self.phase = RestorePhase::Failed;
        } else {
            self.phase = match self.phase {
                RestorePhase::Validated => RestorePhase::Dropped,
                RestorePhase::Dropped => RestorePhase::Recreated,
                RestorePhase::Recreated => RestorePhase::Granted,
                RestorePhase::Granted => RestorePhase::Replayed,
                RestorePhase::Replayed => RestorePhase::Replayed,
                RestorePhase::Failed => RestorePhase::Failed,
            };
        }
    }

    /// The caller-visible outcome: success exactly when the replay ran
    /// through; a destructive failure is never reported as success.
    pub fn report(&self) -> (r: Result<(), Error>)
        requires
            self.phase == RestorePhase::Replayed || self.phase == RestorePhase::Failed,
        ensures
            r is Ok <==> self.phase == RestorePhase::Replayed,
            r is Err ==> r->Err_0 == Error::ExternalTool,
    {
        if matches!(self.phase, RestorePhase::Replayed) {
            Ok(())
        } else {
            Err(Error::ExternalTool)
        }
    }
}

} // verus!

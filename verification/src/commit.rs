//! The replacement of a file in one step, and the commit that ends in one.

use vstd::prelude::*;

verus! {

/// A failed replacement.
///
/// Where the new file is `published` already, whoever opens the path next sees
/// it: what is held in memory must then follow it, although it may not survive a
/// loss of power.
pub struct CommitError<E> {
    pub source: E,
    pub published: bool,
}

/// A step of a replacement.
#[derive(Clone, Copy, Debug, PartialEq, Eq, Structural)]
pub enum WriteStep {
    /// Create the temporary file, empty.
    Create,
    /// Write all bytes to it.
    Write,
    /// Sync it.
    SyncFile,
    /// Rename it to its final name.
    Rename,
    /// Sync the directory.
    SyncDirectory,
}

/// The steps of a replacement, in order.
pub open spec fn write_plan(sync: bool) -> Seq<WriteStep> {
    if sync {
        seq![WriteStep::Create, WriteStep::Write, WriteStep::SyncFile, WriteStep::Rename, WriteStep::SyncDirectory]
    } else {
        seq![WriteStep::Create, WriteStep::Write, WriteStep::Rename]
    }
}

/// Whether a step comes after the rename.
pub open spec fn after_rename(step: WriteStep) -> bool {
    step == WriteStep::SyncDirectory
}

/// The next step of a replacement of which so many are done; none where it is
/// complete.
pub fn write_step(sync: bool, done: usize) -> (r: Option<WriteStep>)
    ensures
        r == (if done < write_plan(sync).len() {
            Some(write_plan(sync)[done as int])
        } else {
            None
        }),
{
    if sync {
        match done {
            0 => Some(WriteStep::Create),
            1 => Some(WriteStep::Write),
            2 => Some(WriteStep::SyncFile),
            3 => Some(WriteStep::Rename),
            4 => Some(WriteStep::SyncDirectory),
            _ => None,
        }
    } else {
        match done {
            0 => Some(WriteStep::Create),
            1 => Some(WriteStep::Write),
            2 => Some(WriteStep::Rename),
            _ => None,
        }
    }
}

/// The failure of a replacement of which a step failed: it ends there.
pub fn write_failed<E>(step: WriteStep, source: E) -> (r: CommitError<E>)
    ensures
        r.source == source,
        r.published == after_rename(step),
{
    CommitError { source, published: matches!(step, WriteStep::SyncDirectory) }
}

/// What a directory holds of a replacement: the file at the path and the temporary
/// one, each with its content where it exists.
#[verifier::ext_equal]
pub struct Files {
    pub path: Option<Seq<u8>>,
    pub pending: Option<Seq<u8>>,
}

impl Files {
    /// The files after a step that replaces the content of the path by `bytes`.
    pub open spec fn after(self, step: WriteStep, bytes: Seq<u8>) -> Files {
        match step {
            WriteStep::Create => Files { pending: Some(Seq::empty()), ..self },
            WriteStep::Write => Files { pending: Some(self.pending->0 + bytes), ..self },
            WriteStep::Rename => Files { path: self.pending, pending: None },
            WriteStep::SyncFile | WriteStep::SyncDirectory => self,
        }
    }

    /// Whether a step that was not completed may leave these files: the temporary
    /// file with any content where the step creates or writes it, and nothing
    /// changed otherwise.
    pub open spec fn may_leave(self, step: WriteStep, left: Files) -> bool {
        match step {
            WriteStep::Create | WriteStep::Write => left.path == self.path,
            _ => left == self,
        }
    }

    /// The files after the first steps of a replacement.
    pub open spec fn after_steps(self, sync: bool, bytes: Seq<u8>, done: nat) -> Files
        decreases done,
    {
        if done == 0 {
            self
        } else {
            self.after_steps(sync, bytes, (done - 1) as nat).after(write_plan(sync)[done - 1], bytes)
        }
    }
}

/// The step at which a replacement was renamed.
pub open spec fn rename_step(sync: bool) -> int {
    if sync {
        3
    } else {
        2
    }
}

/// A replaced file is the old one or the new one, and whole: whatever number of steps
/// is done, the path has the content that it had up to the rename, and all of the
/// new content behind it.
pub proof fn law_path_is_old_or_new(before: Files, sync: bool, bytes: Seq<u8>, done: nat)
    requires
        done <= write_plan(sync).len(),
    ensures
        write_plan(sync)[rename_step(sync)] == WriteStep::Rename,
        done <= rename_step(sync) ==> before.after_steps(sync, bytes, done).path == before.path,
        done > rename_step(sync) ==> before.after_steps(sync, bytes, done).path == Some(bytes),
{
    reveal_with_fuel(Files::after_steps, 6);
    assert(Seq::<u8>::empty() + bytes =~= bytes);
}

/// A complete replacement leaves the new content. One that stopped in a step, by a
/// failure or by a crash, leaves the new content where it counts as published, and
/// the old content where it does not.
pub proof fn law_outcome_tells_the_content(before: Files, sync: bool, bytes: Seq<u8>, done: nat, left: Files)
    requires
        done < write_plan(sync).len(),
        before.after_steps(sync, bytes, done).may_leave(write_plan(sync)[done as int], left),
    ensures
        before.after_steps(sync, bytes, write_plan(sync).len()).path == Some(bytes),
        left.path == if after_rename(write_plan(sync)[done as int]) {
            Some(bytes)
        } else {
            before.path
        },
{
    law_path_is_old_or_new(before, sync, bytes, done);
    law_path_is_old_or_new(before, sync, bytes, write_plan(sync).len());
}

/// A step of a commit: the segments that a manifest speaks of, then the manifest.
#[derive(Clone, Copy, Debug, PartialEq, Eq, Structural)]
pub enum CommitStep {
    /// Sync the segment of the documents.
    SyncObjects,
    /// Sync the segment of the encodings.
    SyncFde,
    /// A step of the replacement of the manifest.
    Replace(WriteStep),
}

/// The segments that are synced before the manifest is replaced.
pub open spec fn segment_syncs(sync: bool) -> Seq<CommitStep> {
    if sync {
        seq![CommitStep::SyncObjects, CommitStep::SyncFde]
    } else {
        seq![]
    }
}

/// The steps of a commit, in order.
pub open spec fn commit_plan(sync: bool) -> Seq<CommitStep> {
    segment_syncs(sync) + write_plan(sync).map_values(|step: WriteStep| CommitStep::Replace(step))
}

/// The next step of a commit of which so many are done; none where it is complete.
pub fn commit_step(sync: bool, done: usize) -> (r: Option<CommitStep>)
    ensures
        r == (if done < commit_plan(sync).len() {
            Some(commit_plan(sync)[done as int])
        } else {
            None
        }),
{
    let first: usize = if sync { 2 } else { 0 };
    if done < first {
        return Some(if done == 0 { CommitStep::SyncObjects } else { CommitStep::SyncFde });
    }
    match write_step(sync, done - first) {
        Some(step) => Some(CommitStep::Replace(step)),
        None => None,
    }
}

/// The failure of a commit of which a step failed: it ends there, and counts as
/// published only behind the rename.
pub fn commit_failed<E>(step: CommitStep, source: E) -> (r: CommitError<E>)
    ensures
        r.source == source,
        r.published == (step matches CommitStep::Replace(write) && after_rename(write)),
{
    match step {
        CommitStep::Replace(write) => write_failed(write, source),
        CommitStep::SyncObjects | CommitStep::SyncFde => CommitError { source, published: false },
    }
}

/// What a manifest speaks of is durable before the manifest is: where a commit is to be
/// synced, both segments are synced before its first byte is written, and so before
/// the rename.
pub proof fn law_segments_are_synced_before_the_manifest(k: int, step: WriteStep)
    requires
        0 <= k < commit_plan(true).len(),
        commit_plan(true)[k] == CommitStep::Replace(step),
    ensures
        commit_plan(true).take(k).contains(CommitStep::SyncObjects),
        commit_plan(true).take(k).contains(CommitStep::SyncFde),
{
    let before = commit_plan(true).take(k);
    assert(before[0] == CommitStep::SyncObjects);
    assert(before[1] == CommitStep::SyncFde);
}

/// Behind its syncs a commit is the replacement of the manifest, step by step: what
/// holds of the one holds of the other.
pub proof fn law_commit_ends_in_the_replacement(sync: bool, k: int)
    requires
        0 <= k < write_plan(sync).len(),
    ensures
        commit_plan(sync).len() == segment_syncs(sync).len() + write_plan(sync).len(),
        commit_plan(sync)[segment_syncs(sync).len() + k] == CommitStep::Replace(write_plan(sync)[k]),
{
}

/// A replacement that is not to be synced is never published and failed at once:
/// there, a failure leaves the old file in place.
pub proof fn law_unsynced_failures_are_unpublished(k: int)
    requires
        0 <= k < write_plan(false).len(),
    ensures
        !after_rename(write_plan(false)[k]),
{
}

/// Whether a step counts as published is decided by the rename alone: the steps
/// up to the rename do not, those behind it do.
pub proof fn law_published_is_after_the_rename(sync: bool, k: int, rename: int)
    requires
        0 <= k < write_plan(sync).len(),
        0 <= rename < write_plan(sync).len(),
        write_plan(sync)[rename] == WriteStep::Rename,
    ensures
        after_rename(write_plan(sync)[k]) <==> k > rename,
{
}

} // verus!

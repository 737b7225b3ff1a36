//! The work that each decision of the engine unfolds into.
//!
//! A [`Task`] is one request together with the policy by which its answer is
//! read. The plans in this file turn a path, its metadata or a listing into
//! the tasks that bring the remote tree in line with it.

use crate::engine::{Engine, EngineView};
use crate::path::{parent_of, up_part, PathView, SyncPath};
use crate::remote::{
    perm_is_dir, EntryKind, LocalEntry, LocalEntryView, LocalMeta, RemoteEntry, RemoteEntryView,
    Request, RequestView, SyncError, SyncErrorView,
};
use std::collections::VecDeque;
use vstd::prelude::*;

verus! {

/// How the answer to a request is read.
#[derive(Clone, Copy, Debug, PartialEq, Eq, Structural)]
pub enum Policy {
    /// Whatever the answer, go on.
    Ignore,
    /// A mkdir: where it fails, stat the directory before giving up.
    ProbeOnFail,
    /// The stat behind a failed mkdir: the directory must be there.
    MustExist,
    /// An upload: it must be carried out.
    MustUpload,
    /// An unlink: where it fails, see whether the path is a directory.
    TryDirOnFail,
    /// The stat behind a failed unlink: a directory is removed with all that
    /// is in it.
    RemoveIfDir,
    /// A remote listing: remove every entry, then the directory.
    RemoveChildren,
    /// A local stat: transfer what is there, delete remotely what is gone.
    TransferOrDelete,
    /// A local listing: transfer every entry and walk on into directories.
    Scan,
}

/// One unit of pending work.
#[derive(Debug)]
pub enum Task {
    /// Make the request and read its answer by the policy.
    Ask { request: Request, policy: Policy },
    /// Give the whole operation up with this error.
    Fail { error: SyncError },
}

/// The mathematical value of a task.
pub enum TaskView {
    Ask { request: RequestView, policy: Policy },
    Fail { error: SyncErrorView },
}

impl View for Task {
    type V = TaskView;

    open spec fn view(&self) -> TaskView {
        match *self {
            Task::Ask { request, policy } => TaskView::Ask { request: request@, policy },
            Task::Fail { error } => TaskView::Fail { error: error@ },
        }
    }
}

/// The tasks that a list of tasks stands for.
pub open spec fn tasks_view(tasks: Seq<Task>) -> Seq<TaskView> {
    Seq::new(tasks.len(), |i: int| tasks[i]@)
}

/// The mode that directories get where the local tree names none.
pub const DEFAULT_DIR_MODE: u32 = 0o755;

/// The permission bits of a mode word.
pub open spec fn perm_bits(mode: u32) -> u32 {
    mode & 0o777u32
}

/// The task that creates one directory and accepts that it is already there.
pub open spec fn make_dir(path: PathView, mode: u32) -> TaskView {
    TaskView::Ask { request: RequestView::Mkdir { path, mode }, policy: Policy::ProbeOnFail }
}

/// The tasks that make sure the remote directory `path` exists: one mkdir for
/// each prefix of `path`, from the first component down to `path` itself.
pub open spec fn ensure_dir_tasks(path: PathView, mode: u32) -> Seq<TaskView> {
    Seq::new(path.len(), |k: int| make_dir(path.take(k + 1), mode))
}

/// The tasks that copy the local file `local` to the remote `remote`: the
/// bytes are uploaded, which must go through, and then the permission bits
/// are set, which may fail without harm.
pub open spec fn upload_tasks(local: PathView, remote: PathView, mode: u32) -> Seq<TaskView> {
    seq![
        TaskView::Ask {
            request: RequestView::Upload { local, remote },
            policy: Policy::MustUpload,
        },
        TaskView::Ask { request: RequestView::SetMode { path: remote, mode }, policy: Policy::Ignore },
    ]
}

/// The tasks that bring the local `local`, whose metadata is `meta`, to the
/// remote path `remote`. A directory is created with the local permission
/// bits. For a regular file the parent directory is made sure of, the bytes
/// are uploaded and the permission bits set, without insisting on the last.
/// Anything else is left alone.
pub open spec fn transfer_tasks(local: PathView, remote: PathView, meta: LocalMeta) -> Seq<
    TaskView,
> {
    match meta.kind {
        EntryKind::Dir => ensure_dir_tasks(remote, perm_bits(meta.mode)),
        EntryKind::File => {
            let parents = match parent_of(remote) {
                Some(parent) => ensure_dir_tasks(parent, DEFAULT_DIR_MODE),
                None => Seq::empty(),
            };
            parents + upload_tasks(local, remote, perm_bits(meta.mode))
        },
        EntryKind::Other => Seq::empty(),
    }
}

/// The task that removes the remote `path`, be it a file or a directory.
pub open spec fn remove_task(path: PathView) -> TaskView {
    TaskView::Ask { request: RequestView::Unlink { path }, policy: Policy::TryDirOnFail }
}

/// The tasks that delete the mirror of the local `p`: none where `p` is
/// excluded or does not lie under the local root.
pub open spec fn delete_tasks(e: EngineView, p: PathView) -> Seq<TaskView> {
    if e.filter().excludes(p) {
        Seq::empty()
    } else {
        match e.remote_of(p) {
            Some(remote) => seq![remove_task(remote)],
            None => Seq::empty(),
        }
    }
}

/// Whether a listing entry stands for the listed directory itself or for its
/// parent.
pub open spec fn is_self_or_up(dir: PathView, entry: PathView) -> bool {
    entry == dir || (entry.len() > 0 && entry.last() == up_part())
}

/// The tasks that remove one entry of the remote directory `dir`: a
/// directory is listed and emptied in its turn, anything else is unlinked.
pub open spec fn entry_removal(dir: PathView, entry: RemoteEntryView) -> Seq<TaskView> {
    if is_self_or_up(dir, entry.path) {
        Seq::empty()
    } else if perm_is_dir(entry.stat.perm) {
        seq![
            TaskView::Ask {
                request: RequestView::ReadRemoteDir { path: entry.path },
                policy: Policy::RemoveChildren,
            },
        ]
    } else {
        seq![
            TaskView::Ask {
                request: RequestView::Unlink { path: entry.path },
                policy: Policy::Ignore,
            },
        ]
    }
}

/// The tasks that remove the entries of a remote listing, in its order.
pub open spec fn entries_removal(dir: PathView, entries: Seq<RemoteEntryView>) -> Seq<TaskView>
    decreases entries.len(),
{
    if entries.len() == 0 {
        Seq::empty()
    } else {
        entries_removal(dir, entries.drop_last()) + entry_removal(dir, entries.last())
    }
}

/// The tasks that remove the remote directory `dir` whose listing is
/// `entries`: first what is in it, depth first, then the directory.
pub open spec fn remove_dir_tasks(dir: PathView, entries: Seq<RemoteEntryView>) -> Seq<TaskView> {
    entries_removal(dir, entries).push(
        TaskView::Ask { request: RequestView::Rmdir { path: dir }, policy: Policy::Ignore },
    )
}

/// What a local listing unfolds into: the tasks to run now, the directories
/// to list later, and whether the walk stopped at an entry.
pub struct ScanPlan {
    pub now: Seq<TaskView>,
    pub later: Seq<TaskView>,
    pub stopped: bool,
}

/// The task that lists a local directory and walks its entries.
pub open spec fn scan_task(dir: PathView) -> TaskView {
    TaskView::Ask { request: RequestView::ReadLocalDir { path: dir }, policy: Policy::Scan }
}

/// A plan with one more entry taken in. An excluded entry adds nothing, and
/// neither does an entry outside the local root. An entry whose metadata
/// could not be read ends the plan with a failure behind the tasks of the
/// entries before it. Any other entry adds its transfer, and a directory is
/// listed later.
pub open spec fn scan_entry(e: EngineView, plan: ScanPlan, entry: LocalEntryView) -> ScanPlan {
    if plan.stopped || e.filter().excludes(entry.path) {
        plan
    } else {
        match (e.remote_of(entry.path), entry.meta) {
            (None, _) => plan,
            (Some(_), None) => ScanPlan {
                now: plan.now.push(
                    TaskView::Fail { error: SyncErrorView::Metadata { path: entry.path } },
                ),
                later: plan.later,
                stopped: true,
            },
            (Some(remote), Some(meta)) => ScanPlan {
                now: plan.now + transfer_tasks(entry.path, remote, meta),
                later: if meta.kind == EntryKind::Dir {
                    plan.later.push(scan_task(entry.path))
                } else {
                    plan.later
                },
                stopped: false,
            },
        }
    }
}

/// The plan for the entries of a local listing, in its order.
pub open spec fn scan_entries(e: EngineView, entries: Seq<LocalEntryView>) -> ScanPlan
    decreases entries.len(),
{
    if entries.len() == 0 {
        ScanPlan { now: Seq::empty(), later: Seq::empty(), stopped: false }
    } else {
        scan_entry(e, scan_entries(e, entries.drop_last()), entries.last())
    }
}

/// The plan for the listing of the local directory `dir`. Where the listing
/// broke off, the plan ends with a failure behind the tasks of the entries
/// that were read.
pub open spec fn scan_plan(
    e: EngineView,
    dir: PathView,
    entries: Seq<LocalEntryView>,
    complete: bool,
) -> ScanPlan {
    let plan = scan_entries(e, entries);
    if complete || plan.stopped {
        plan
    } else {
        ScanPlan {
            now: plan.now.push(TaskView::Fail { error: SyncErrorView::ReadDir { path: dir } }),
            later: plan.later,
            stopped: true,
        }
    }
}

proof fn lemma_tasks_view_push(tasks: Seq<Task>, t: Task)
    ensures
        tasks_view(tasks.push(t)) == tasks_view(tasks).push(t@),
{
    assert(tasks_view(tasks.push(t)) =~= tasks_view(tasks).push(t@));
}

/// Adds the tasks that make sure the remote directory `path` exists.
fn push_ensure_dir(tasks: &mut Vec<Task>, path: &SyncPath, mode: u32)
    ensures
        tasks_view(final(tasks)@) == tasks_view(old(tasks)@) + ensure_dir_tasks(path@, mode),
{
    let n = path.len();
    let mut k: usize = 0;
    assert(tasks_view(tasks@) =~= tasks_view(old(tasks)@) + ensure_dir_tasks(path@, mode).take(0));
    while k < n
        invariant
            k <= n == path@.len(),
            tasks_view(tasks@) == tasks_view(old(tasks)@) + ensure_dir_tasks(path@, mode).take(
                k as int,
            ),
        decreases n - k,
    {
        let task = Task::Ask {
            request: Request::Mkdir { path: path.take(k + 1), mode },
            policy: Policy::ProbeOnFail,
        };
        proof {
            lemma_tasks_view_push(tasks@, task);
            assert(ensure_dir_tasks(path@, mode).take(k + 1) =~= ensure_dir_tasks(
                path@,
                mode,
            ).take(k as int).push(task@));
        }
        tasks.push(task);
        k += 1;
        assert(tasks_view(tasks@) =~= tasks_view(old(tasks)@) + ensure_dir_tasks(path@, mode).take(
            k as int,
        ));
    }
    assert(ensure_dir_tasks(path@, mode).take(n as int) =~= ensure_dir_tasks(path@, mode));
}

/// The tasks that make sure the remote directory `path` exists.
pub fn plan_ensure_dir(path: &SyncPath, mode: u32) -> (tasks: Vec<Task>)
    ensures
        tasks_view(tasks@) == ensure_dir_tasks(path@, mode),
{
    let mut tasks: Vec<Task> = Vec::new();
    push_ensure_dir(&mut tasks, path, mode);
    assert(tasks_view(tasks@) =~= ensure_dir_tasks(path@, mode));
    tasks
}

/// Adds the tasks that copy the local file `local` to the remote `remote`.
fn push_upload(tasks: &mut Vec<Task>, local: &SyncPath, remote: &SyncPath, mode: u32)
    ensures
        tasks_view(final(tasks)@) == tasks_view(old(tasks)@) + upload_tasks(local@, remote@, mode),
{
    let upload = Task::Ask {
        request: Request::Upload { local: local.clone_path(), remote: remote.clone_path() },
        policy: Policy::MustUpload,
    };
    let set_mode = Task::Ask {
        request: Request::SetMode { path: remote.clone_path(), mode },
        policy: Policy::Ignore,
    };
    proof {
        lemma_tasks_view_push(tasks@, upload);
        lemma_tasks_view_push(tasks@.push(upload), set_mode);
    }
    tasks.push(upload);
    tasks.push(set_mode);
    assert(tasks_view(tasks@) =~= tasks_view(old(tasks)@) + upload_tasks(local@, remote@, mode));
}

/// The tasks that copy the local file `local` to the remote `remote` and give
/// it the permission bits `mode`.
pub fn plan_upload(local: &SyncPath, remote: &SyncPath, mode: u32) -> (tasks: Vec<Task>)
    ensures
        tasks_view(tasks@) == upload_tasks(local@, remote@, mode),
{
    let mut tasks: Vec<Task> = Vec::new();
    push_upload(&mut tasks, local, remote, mode);
    assert(tasks_view(tasks@) =~= upload_tasks(local@, remote@, mode));
    tasks
}

/// Adds the tasks that bring `local` to `remote`.
fn push_transfer(tasks: &mut Vec<Task>, local: &SyncPath, remote: &SyncPath, meta: LocalMeta)
    ensures
        tasks_view(final(tasks)@) == tasks_view(old(tasks)@) + transfer_tasks(
            local@,
            remote@,
            meta,
        ),
{
    let bits = meta.mode & 0o777;
    match meta.kind {
        EntryKind::Dir => {
            push_ensure_dir(tasks, remote, bits);
        },
        EntryKind::File => {
            if let Some(parent) = remote.parent() {
                push_ensure_dir(tasks, &parent, DEFAULT_DIR_MODE);
            }
            push_upload(tasks, local, remote, bits);
            assert(tasks_view(tasks@) =~= tasks_view(old(tasks)@) + transfer_tasks(
                local@,
                remote@,
                meta,
            ));
        },
        EntryKind::Other => {
            assert(tasks_view(tasks@) =~= tasks_view(old(tasks)@) + transfer_tasks(
                local@,
                remote@,
                meta,
            ));
        },
    }
}

/// The tasks that bring the local `local`, whose metadata is `meta`, to the
/// remote path `remote`.
pub fn plan_transfer(local: &SyncPath, remote: &SyncPath, meta: LocalMeta) -> (tasks: Vec<Task>)
    ensures
        tasks_view(tasks@) == transfer_tasks(local@, remote@, meta),
{
    let mut tasks: Vec<Task> = Vec::new();
    push_transfer(&mut tasks, local, remote, meta);
    assert(tasks_view(tasks@) =~= transfer_tasks(local@, remote@, meta));
    tasks
}

/// The tasks that delete the mirror of the local `path`.
pub fn plan_delete(engine: &Engine, path: &SyncPath) -> (tasks: Vec<Task>)
    ensures
        tasks_view(tasks@) == delete_tasks(engine@, path@),
{
    let mut tasks: Vec<Task> = Vec::new();
    if !engine.is_blacklisted(path) {
        if let Some(remote) = engine.remote_of(path) {
            tasks.push(Task::Ask { request: Request::Unlink { path: remote }, policy: Policy::TryDirOnFail });
        }
    }
    assert(tasks_view(tasks@) =~= delete_tasks(engine@, path@));
    tasks
}

/// The tasks that remove the remote directory `dir` whose listing is
/// `entries`.
pub fn plan_remove_dir(dir: &SyncPath, entries: &Vec<RemoteEntry>) -> (tasks: Vec<Task>)
    ensures
        tasks_view(tasks@) == remove_dir_tasks(dir@, crate::remote::remote_entries_view(entries@)),
{
    let ghost all = crate::remote::remote_entries_view(entries@);
    let mut tasks: Vec<Task> = Vec::new();
    let mut i: usize = 0;
    proof {
        assert(all.take(0) =~= Seq::<RemoteEntryView>::empty());
        assert(tasks_view(tasks@) =~= entries_removal(dir@, all.take(0)));
    }
    while i < entries.len()
        invariant
            i <= entries.len(),
            all == crate::remote::remote_entries_view(entries@),
            tasks_view(tasks@) == entries_removal(dir@, all.take(i as int)),
        decreases entries.len() - i,
    {
        let entry = &entries[i];
        proof {
            assert(all.take(i + 1).drop_last() =~= all.take(i as int));
            assert(all.take(i + 1).last() == entry@);
        }
        if entry.path.same(dir) || entry.path.ends_in_up() {
            assert(tasks_view(tasks@) =~= tasks_view(tasks@) + entry_removal(dir@, entry@));
        } else {
            let task = if entry.stat.is_dir() {
                Task::Ask {
                    request: Request::ReadRemoteDir { path: entry.path.clone_path() },
                    policy: Policy::RemoveChildren,
                }
            } else {
                Task::Ask {
                    request: Request::Unlink { path: entry.path.clone_path() },
                    policy: Policy::Ignore,
                }
            };
            proof {
                lemma_tasks_view_push(tasks@, task);
                assert(tasks_view(tasks@).push(task@) =~= tasks_view(tasks@) + entry_removal(
                    dir@,
                    entry@,
                ));
            }
            tasks.push(task);
        }
        i += 1;
    }
    let last = Task::Ask { request: Request::Rmdir { path: dir.clone_path() }, policy: Policy::Ignore };
    proof {
        assert(all.take(i as int) =~= all);
        lemma_tasks_view_push(tasks@, last);
    }
    tasks.push(last);
    tasks
}

/// The tasks that the listing of the local directory `dir` unfolds into:
/// those to run now, and the directories to list later.
pub fn plan_scan(engine: &Engine, dir: &SyncPath, entries: &Vec<LocalEntry>, complete: bool) -> (r: (
    Vec<Task>,
    VecDeque<Task>,
))
    ensures
        tasks_view(r.0@) == scan_plan(
            engine@,
            dir@,
            crate::remote::local_entries_view(entries@),
            complete,
        ).now,
        tasks_view(r.1@) == scan_plan(
            engine@,
            dir@,
            crate::remote::local_entries_view(entries@),
            complete,
        ).later,
{
    let ghost all = crate::remote::local_entries_view(entries@);
    let mut now: Vec<Task> = Vec::new();
    let mut later: VecDeque<Task> = VecDeque::new();
    let mut stopped = false;
    let mut i: usize = 0;
    proof {
        assert(all.take(0) =~= Seq::<LocalEntryView>::empty());
        assert(tasks_view(now@) =~= Seq::<TaskView>::empty());
        assert(tasks_view(later@) =~= Seq::<TaskView>::empty());
    }
    while i < entries.len()
        invariant
            i <= entries.len(),
            all == crate::remote::local_entries_view(entries@),
            scan_entries(engine@, all.take(i as int)) == (ScanPlan {
                now: tasks_view(now@),
                later: tasks_view(later@),
                stopped,
            }),
        decreases entries.len() - i,
    {
        let entry = &entries[i];
        proof {
            assert(all.take(i + 1).drop_last() =~= all.take(i as int));
            assert(all.take(i + 1).last() == entry@);
        }
        if !stopped && !engine.is_blacklisted(&entry.path) {
            match engine.remote_of(&entry.path) {
                None => {},
                Some(remote) => match entry.meta {
                    None => {
                        let fail = Task::Fail {
                            error: SyncError::Metadata { path: entry.path.clone_path() },
                        };
                        proof {
                            lemma_tasks_view_push(now@, fail);
                        }
                        now.push(fail);
                        stopped = true;
                    },
                    Some(meta) => {
                        push_transfer(&mut now, &entry.path, &remote, meta);
                        match meta.kind {
                            EntryKind::Dir => {
                                let scan = Task::Ask {
                                    request: Request::ReadLocalDir { path: entry.path.clone_path() },
                                    policy: Policy::Scan,
                                };
                                proof {
                                    lemma_tasks_view_push(later@, scan);
                                }
                                later.push_back(scan);
                            },
                            _ => {},
                        }
                    },
                },
            }
        }
        i += 1;
    }
    assert(all.take(i as int) =~= all);
    if !complete && !stopped {
        let fail = Task::Fail { error: SyncError::ReadDir { path: dir.clone_path() } };
        proof {
            lemma_tasks_view_push(now@, fail);
        }
        now.push(fail);
    }
    (now, later)
}

} // verus!

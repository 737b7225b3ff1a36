//! The operations of the engine, each as the worker that carries it out.

use crate::engine::{Engine, EngineView};
use crate::intent::Intent;
use crate::path::{PathView, SyncPath};
use crate::plan::{
    delete_tasks, ensure_dir_tasks, plan_delete, plan_ensure_dir, plan_upload, remove_task,
    scan_task, upload_tasks, Policy, Task, TaskView, DEFAULT_DIR_MODE,
};
use crate::remote::{Request, RequestView};
use crate::worker::{Worker, WorkerView};
use vstd::prelude::*;

verus! {

/// The worker that has these tasks before it.
pub open spec fn fresh(todo: Seq<TaskView>) -> WorkerView {
    WorkerView { current: None, todo }
}

/// The task that looks at the local `p` and transfers it, or deletes its
/// mirror where it is gone.
pub open spec fn transfer_task(p: PathView) -> TaskView {
    TaskView::Ask { request: RequestView::LocalStat { path: p }, policy: Policy::TransferOrDelete }
}

/// The tasks that an incremental transfer of the local `p` begins with: none
/// where `p` is excluded.
pub open spec fn transfer_start(e: EngineView, p: PathView) -> Seq<TaskView> {
    if e.filter().excludes(p) {
        Seq::empty()
    } else {
        seq![transfer_task(p)]
    }
}

/// The tasks that applying an intent to the local `p` begins with.
pub open spec fn intent_start(e: EngineView, p: PathView, intent: Intent) -> Seq<TaskView> {
    match intent {
        Intent::Transfer => transfer_start(e, p),
        Intent::Delete => delete_tasks(e, p),
        Intent::NoOp => Seq::empty(),
    }
}

/// The façade over the remote store: each operation as a worker.
pub struct RemoteTree;

impl RemoteTree {
    /// Makes sure that the remote directory `path` exists, creating each
    /// missing prefix with `mode`. The operation fails where a prefix can
    /// neither be created nor found.
    pub fn ensure_dir(path: &SyncPath, mode: u32) -> (w: Worker)
        ensures
            w@ == fresh(ensure_dir_tasks(path@, mode)),
    {
        Worker::with_tasks(plan_ensure_dir(path, mode))
    }

    /// Copies the local file `local` to the remote `remote` and gives it the
    /// permission bits `mode`.
    pub fn upload(local: &SyncPath, remote: &SyncPath, mode: u32) -> (w: Worker)
        ensures
            w@ == fresh(upload_tasks(local@, remote@, mode)),
    {
        Worker::with_tasks(plan_upload(local, remote, mode))
    }

    /// Removes the remote `path`: a file is unlinked, a directory is removed
    /// with all that is in it, and a path that is not there is left alone.
    pub fn remove(path: &SyncPath) -> (w: Worker)
        ensures
            w@ == fresh(seq![remove_task(path@)]),
    {
        let mut tasks: Vec<Task> = Vec::new();
        tasks.push(
            Task::Ask { request: Request::Unlink { path: path.clone_path() }, policy: Policy::TryDirOnFail },
        );
        let w = Worker::with_tasks(tasks);
        assert(w@.todo =~= seq![remove_task(path@)]);
        w
    }
}

impl Engine {
    /// Makes sure that the remote root exists.
    pub fn ensure_remote_root(&self) -> (w: Worker)
        ensures
            w@ == fresh(ensure_dir_tasks(self@.remote_root, DEFAULT_DIR_MODE)),
    {
        RemoteTree::ensure_dir(self.remote_root(), DEFAULT_DIR_MODE)
    }

    /// The full sync: walks the local tree from the root, breadth first, and
    /// transfers every entry that is not excluded.
    pub fn transfer_all(&self) -> (w: Worker)
        ensures
            w@ == fresh(seq![scan_task(self@.local_root)]),
    {
        let mut tasks: Vec<Task> = Vec::new();
        tasks.push(
            Task::Ask {
                request: Request::ReadLocalDir { path: self.local_root().clone_path() },
                policy: Policy::Scan,
            },
        );
        let w = Worker::with_tasks(tasks);
        assert(w@.todo =~= seq![scan_task(self@.local_root)]);
        w
    }

    /// Transfers the local `path` as it is now; where it is gone, its mirror
    /// is deleted instead. A path that is excluded or lies outside the local
    /// root is left alone.
    pub fn transfer_element(&self, path: &SyncPath) -> (w: Worker)
        ensures
            w@ == fresh(transfer_start(self@, path@)),
    {
        let mut tasks: Vec<Task> = Vec::new();
        if !self.is_blacklisted(path) {
            tasks.push(
                Task::Ask {
                    request: Request::LocalStat { path: path.clone_path() },
                    policy: Policy::TransferOrDelete,
                },
            );
        }
        let w = Worker::with_tasks(tasks);
        assert(w@.todo =~= transfer_start(self@, path@));
        w
    }

    /// Deletes the mirror of the local `path`. A path that is excluded or
    /// lies outside the local root is left alone.
    pub fn delete_element(&self, path: &SyncPath) -> (w: Worker)
        ensures
            w@ == fresh(delete_tasks(self@, path@)),
    {
        Worker::with_tasks(plan_delete(self, path))
    }

    /// Applies the net action decided for `path`.
    pub fn apply(&self, path: &SyncPath, intent: Intent) -> (w: Worker)
        ensures
            w@ == fresh(intent_start(self@, path@, intent)),
    {
        match intent {
            Intent::Transfer => self.transfer_element(path),
            Intent::Delete => self.delete_element(path),
            Intent::NoOp => {
                let w = Worker::with_tasks(Vec::new());
                assert(w@.todo =~= Seq::<TaskView>::empty());
                w
            },
        }
    }
}

} // verus!

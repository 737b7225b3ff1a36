//! A mathematical model of the two trees that the engine works between, and
//! of a driver that answers every request truthfully.
//!
//! The model exists to state what the engine achieves. A local tree and a
//! remote store are maps from paths to nodes; each request has a condition
//! under which it succeeds and an effect on the store; and a run is what a
//! worker does when every request is answered as the model prescribes.

use crate::engine::EngineView;
use crate::path::{file_name_of, up_part, PathView};
use crate::plan::TaskView;
use crate::remote::{
    perm_is_dir, EntryKind, LocalEntryView, LocalMeta, RemoteEntryView, ReplyView, RequestView,
    SyncErrorView,
};
use crate::worker::{step_of, take_up, StepView, WorkerView};
use vstd::prelude::*;

verus! {

/// What the remote store holds at a path.
pub enum RemoteNode {
    Dir { mode: u32 },
    File { content: Seq<u8>, mode: u32 },
}

/// What the local tree holds at a path.
pub enum LocalNode {
    Dir { mode: u32 },
    File { content: Seq<u8>, mode: u32 },
    Other { mode: u32 },
}

/// The remote store: the nodes by their paths.
pub type RemoteFs = Map<PathView, RemoteNode>;

/// The local tree: the nodes by their paths.
pub type LocalFs = Map<PathView, LocalNode>;

/// Both trees.
pub struct World {
    pub local: LocalFs,
    pub remote: RemoteFs,
}

/// Whether `p` lies directly in the directory `dir`.
pub open spec fn child_of(dir: PathView, p: PathView) -> bool {
    p.len() == dir.len() + 1 && dir.is_prefix_of(p)
}

/// Whether `p` lies somewhere below `dir`.
pub open spec fn below(dir: PathView, p: PathView) -> bool {
    p.len() > dir.len() && dir.is_prefix_of(p)
}

/// Whether the store holds a directory at `p`.
pub open spec fn dir_at(fs: RemoteFs, p: PathView) -> bool {
    fs.dom().contains(p) && fs[p] is Dir
}

/// Whether the store holds a file at `p`.
pub open spec fn file_at(fs: RemoteFs, p: PathView) -> bool {
    fs.dom().contains(p) && fs[p] is File
}

/// Whether the store is a tree: every node has a path, none is named `..`,
/// and every node but those of a single component lies in a directory of the
/// store.
pub open spec fn is_tree(fs: RemoteFs) -> bool {
    forall|p: PathView| #[trigger]
        fs.dom().contains(p) ==> p.len() >= 1 && p.last() != up_part() && (p.len() >= 2 ==> dir_at(
            fs,
            p.drop_last(),
        ))
}

/// Whether a node can be created at `p`: nothing is there, the final
/// component is an ordinary name, and the parent is a directory of the store.
pub open spec fn can_create(fs: RemoteFs, p: PathView) -> bool {
    !fs.dom().contains(p) && file_name_of(p).is_some() && (p.len() == 1 || dir_at(
        fs,
        p.drop_last(),
    ))
}

/// Whether nothing of the store lies in `dir`.
pub open spec fn childless(fs: RemoteFs, dir: PathView) -> bool {
    forall|p: PathView| #[trigger] fs.dom().contains(p) ==> !child_of(dir, p)
}

/// Whether `entries` is a listing of the remote directory `dir`: each entry
/// is a node directly in `dir` and tells truly whether it is a directory, no
/// node is listed twice, and every node directly in `dir` is listed.
pub open spec fn lists_remote(fs: RemoteFs, dir: PathView, entries: Seq<RemoteEntryView>) -> bool {
    &&& forall|i: int|
        0 <= i < entries.len() ==> {
            let entry = #[trigger] entries[i];
            &&& fs.dom().contains(entry.path)
            &&& child_of(dir, entry.path)
            &&& perm_is_dir(entry.stat.perm) == (fs[entry.path] is Dir)
        }
    &&& forall|i: int, j: int|
        0 <= i < entries.len() && 0 <= j < entries.len() && i != j ==> (#[trigger] entries[i]).path
            != (#[trigger] entries[j]).path
    &&& forall|p: PathView| #[trigger]
        fs.dom().contains(p) && child_of(dir, p) ==> exists|i: int|
            0 <= i < entries.len() && (#[trigger] entries[i]).path == p
}

/// The metadata that the local tree reports of a node.
pub open spec fn meta_of(node: LocalNode) -> LocalMeta {
    match node {
        LocalNode::Dir { mode } => LocalMeta { kind: EntryKind::Dir, mode },
        LocalNode::File { mode, .. } => LocalMeta { kind: EntryKind::File, mode },
        LocalNode::Other { mode } => LocalMeta { kind: EntryKind::Other, mode },
    }
}

/// Whether `entries` is a listing of the local directory `dir`: each entry
/// is a node directly in `dir` with its metadata, no node is listed twice,
/// and every node directly in `dir` is listed.
pub open spec fn lists_local(fs: LocalFs, dir: PathView, entries: Seq<LocalEntryView>) -> bool {
    &&& forall|i: int|
        0 <= i < entries.len() ==> {
            let entry = #[trigger] entries[i];
            &&& fs.dom().contains(entry.path)
            &&& child_of(dir, entry.path)
            &&& entry.meta == Some(meta_of(fs[entry.path]))
        }
    &&& forall|i: int, j: int|
        0 <= i < entries.len() && 0 <= j < entries.len() && i != j ==> (#[trigger] entries[i]).path
            != (#[trigger] entries[j]).path
    &&& forall|p: PathView| #[trigger]
        fs.dom().contains(p) && child_of(dir, p) ==> exists|i: int|
            0 <= i < entries.len() && (#[trigger] entries[i]).path == p
}

/// The mode that a file gets when an upload creates it.
pub open spec fn created_file_mode() -> u32 {
    0o644
}

/// Whether a request succeeds in a world.
pub open spec fn succeeds(world: World, request: RequestView) -> bool {
    match request {
        RequestView::Mkdir { path, .. } => can_create(world.remote, path),
        RequestView::Stat { path } => world.remote.dom().contains(path),
        RequestView::Unlink { path } => file_at(world.remote, path),
        RequestView::Rmdir { path } => dir_at(world.remote, path) && childless(world.remote, path),
        RequestView::ReadRemoteDir { path } => dir_at(world.remote, path),
        RequestView::Upload { local, remote } => world.local.dom().contains(local)
            && world.local[local] is File && (file_at(world.remote, remote) || can_create(
            world.remote,
            remote,
        )),
        RequestView::SetMode { path, .. } => world.remote.dom().contains(path),
        RequestView::LocalStat { path } => world.local.dom().contains(path),
        RequestView::ReadLocalDir { path } => world.local.dom().contains(path)
            && world.local[path] is Dir,
    }
}

/// The remote store behind a request that succeeded.
pub open spec fn effect(world: World, request: RequestView) -> RemoteFs {
    let fs = world.remote;
    match request {
        RequestView::Mkdir { path, mode } => fs.insert(path, RemoteNode::Dir { mode }),
        RequestView::Unlink { path } => fs.remove(path),
        RequestView::Rmdir { path } => fs.remove(path),
        RequestView::Upload { local, remote } => fs.insert(
            remote,
            RemoteNode::File {
                content: world.local[local]->File_content,
                mode: if fs.dom().contains(remote) {
                    fs[remote]->File_mode
                } else {
                    created_file_mode()
                },
            },
        ),
        RequestView::SetMode { path, mode } => fs.insert(
            path,
            match fs[path] {
                RemoteNode::Dir { .. } => RemoteNode::Dir { mode },
                RemoteNode::File { content, .. } => RemoteNode::File { content, mode },
            },
        ),
        _ => fs,
    }
}

/// The world behind a request: changed by its effect where it succeeds, and
/// as it was where it fails. No request changes the local tree.
pub open spec fn after(world: World, request: RequestView) -> World {
    if succeeds(world, request) {
        World { local: world.local, remote: effect(world, request) }
    } else {
        world
    }
}

/// Whether `reply` is a truthful answer to `request` in `world`.
pub open spec fn answers(world: World, request: RequestView, reply: ReplyView) -> bool {
    if !succeeds(world, request) {
        reply is Failed
    } else {
        match request {
            RequestView::Stat { path } => reply matches ReplyView::RemoteStat(stat) && perm_is_dir(
                stat.perm,
            ) == (world.remote[path] is Dir),
            RequestView::ReadRemoteDir { path } => reply matches ReplyView::RemoteListing(entries)
                && lists_remote(world.remote, path, entries),
            RequestView::LocalStat { path } => reply == ReplyView::LocalMeta(
                meta_of(world.local[path]),
            ),
            RequestView::ReadLocalDir { path } => reply matches ReplyView::LocalListing {
                entries,
                complete,
            } && complete && lists_local(world.local, path, entries),
            _ => reply is Done,
        }
    }
}

/// An operation under way: its worker, the world it has made so far, and how
/// it ended, once it has.
pub struct Run {
    pub worker: WorkerView,
    pub world: World,
    pub ended: Option<Result<(), SyncErrorView>>,
}

/// How a step ends an operation, if it does.
pub open spec fn ending(step: StepView) -> Option<Result<(), SyncErrorView>> {
    match step {
        StepView::Finished(result) => Some(result),
        StepView::Ask(_) => None,
    }
}

/// The run that begins when a worker with the tasks `todo` takes its first
/// step.
pub open spec fn begin(todo: Seq<TaskView>, world: World) -> Run {
    let (worker, step) = take_up(todo);
    Run { worker, world, ended: ending(step) }
}

/// The request that a run waits on, if it waits on one.
pub open spec fn pending(run: Run) -> Option<RequestView> {
    match run.worker.current {
        Some(TaskView::Ask { request, .. }) => Some(request),
        _ => None,
    }
}

/// The tasks that a worker still has before it, the one under way first.
pub open spec fn agenda_of(worker: WorkerView) -> Seq<TaskView> {
    match worker.current {
        Some(task) => seq![task] + worker.todo,
        None => worker.todo,
    }
}

/// The run one answer later: the request under way takes its effect on the
/// world, and the worker takes its step on the answer.
pub open spec fn advance(e: EngineView, run: Run, reply: ReplyView) -> Run {
    match pending(run) {
        Some(request) => {
            let (worker, step) = step_of(e, run.worker, reply);
            Run { worker, world: after(run.world, request), ended: ending(step) }
        },
        None => run,
    }
}

/// The run after a sequence of answers.
pub open spec fn drive(e: EngineView, run: Run, replies: Seq<ReplyView>) -> Run
    decreases replies.len(),
{
    if replies.len() == 0 {
        run
    } else {
        drive(e, advance(e, run, replies[0]), replies.skip(1))
    }
}

/// Whether a sequence of answers is truthful: each one answers the request
/// that the run waits on at that moment, in the world of that moment.
pub open spec fn truthful(e: EngineView, run: Run, replies: Seq<ReplyView>) -> bool
    decreases replies.len(),
{
    replies.len() == 0 || (pending(run).is_some() && answers(
        run.world,
        pending(run).unwrap(),
        replies[0],
    ) && truthful(e, advance(e, run, replies[0]), replies.skip(1)))
}

} // verus!

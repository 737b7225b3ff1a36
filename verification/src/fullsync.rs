//! What the full sync achieves: in a world that answers truthfully, with
//! nothing excluded and an empty remote root, a full sync that has ended has
//! ended well, and the remote tree then holds exactly the directories and
//! the files of the local tree, each file with its bytes and its permission
//! bits. And whatever is excluded, a full sync leaves it and its mirror
//! alone.

use crate::engine::EngineView;
use crate::model::{
    advance, agenda_of, answers, begin, below, can_create, child_of, created_file_mode, dir_at,
    drive, file_at, is_tree, lists_local, meta_of, pending, truthful, LocalFs, LocalNode, RemoteFs,
    RemoteNode, Run, World,
};
use crate::path::up_part;
use crate::worker::{idle, take_up, StepView};
use crate::path::{cur_part, is_name, join_of, parent_of, root_part, PathView};
use crate::plan::{
    ensure_dir_tasks, make_dir, perm_bits, scan_entries, scan_entry, scan_task, transfer_tasks,
    upload_tasks, Policy, ScanPlan, TaskView, DEFAULT_DIR_MODE,
};
use crate::remote::{LocalEntryView, ReplyView, RequestView};
use crate::removal::lemma_ancestors;
use vstd::prelude::*;

verus! {

/// The remote path that mirrors the local `p`: the remote root with what
/// `p` adds to the local root behind it.
pub open spec fn mirror(e: EngineView, p: PathView) -> PathView {
    e.remote_root + p.skip(e.local_root.len() as int)
}

/// The local path that the remote `q` mirrors.
pub open spec fn source(e: EngineView, q: PathView) -> PathView {
    e.local_root + q.skip(e.remote_root.len() as int)
}

/// Whether the local tree is a tree under the local root: the root is a
/// directory, and every node below it has an ordinary name and lies in a
/// directory of the tree.
pub open spec fn is_local_tree(e: EngineView, local: LocalFs) -> bool {
    &&& local.dom().contains(e.local_root)
    &&& local[e.local_root] is Dir
    &&& forall|p: PathView| #[trigger]
        local.dom().contains(p) && below(e.local_root, p) ==> is_name(p.last())
            && local.dom().contains(p.drop_last()) && local[p.drop_last()] is Dir
}

/// Whether the filter lets every node below the local root pass.
pub open spec fn nothing_excluded(e: EngineView, local: LocalFs) -> bool {
    forall|p: PathView| #[trigger]
        local.dom().contains(p) && below(e.local_root, p) ==> !e.filter().excludes(p)
}

/// Whether the remote root and every directory above it are there.
pub open spec fn root_ready(e: EngineView, fs: RemoteFs) -> bool {
    forall|k: int| 1 <= k <= e.remote_root.len() ==> dir_at(fs, #[trigger] e.remote_root.take(k))
}

/// Whether nothing lies below the remote root.
pub open spec fn empty_below_root(e: EngineView, fs: RemoteFs) -> bool {
    forall|q: PathView| #[trigger] fs.dom().contains(q) ==> !below(e.remote_root, q)
}

/// The permission bits of a local node.
spec fn bits_of(node: LocalNode) -> u32 {
    match node {
        LocalNode::Dir { mode } => perm_bits(mode),
        LocalNode::File { mode, .. } => perm_bits(mode),
        LocalNode::Other { mode } => perm_bits(mode),
    }
}

/// Whether a remote node mirrors a local one but perhaps for a file's
/// permission bits: a directory with the local permission bits, or a file
/// with the local bytes.
spec fn half_mirrors(node: LocalNode, r: RemoteNode) -> bool {
    match (node, r) {
        (LocalNode::Dir { mode }, RemoteNode::Dir { mode: b }) => b == perm_bits(mode),
        (LocalNode::File { content, .. }, RemoteNode::File { content: c, .. }) => c == content,
        _ => false,
    }
}

/// Whether a remote node mirrors a local one: a directory with the local
/// permission bits, or a file with the local bytes and permission bits.
pub open spec fn mirrors(node: LocalNode, r: RemoteNode) -> bool {
    match (node, r) {
        (LocalNode::Dir { mode }, RemoteNode::Dir { mode: b }) => b == perm_bits(mode),
        (LocalNode::File { content, mode }, RemoteNode::File { content: c, mode: b }) => c
            == content && b == perm_bits(mode),
        _ => false,
    }
}

/// The task that stats a directory which could not be created.
spec fn probe_task(q: PathView) -> TaskView {
    TaskView::Ask { request: RequestView::Stat { path: q }, policy: Policy::MustExist }
}

/// The task that uploads the local `p` to the remote `r`.
spec fn upload_task(p: PathView, r: PathView) -> TaskView {
    TaskView::Ask { request: RequestView::Upload { local: p, remote: r }, policy: Policy::MustUpload }
}

/// The task that sets the permission bits of the remote `r`.
spec fn set_mode_task(r: PathView, bits: u32) -> TaskView {
    TaskView::Ask { request: RequestView::SetMode { path: r, mode: bits }, policy: Policy::Ignore }
}

/// Whether the task at `i` is `t`.
spec fn at(agenda: Seq<TaskView>, i: int, t: TaskView) -> bool {
    0 <= i < agenda.len() && agenda[i] == t
}

/// Whether `t` is one of the tasks before `j`.
spec fn has_before(agenda: Seq<TaskView>, j: int, t: TaskView) -> bool {
    exists|i: int| i < j && #[trigger] at(agenda, i, t)
}

/// Whether `t` is one of the tasks behind `j`.
spec fn has_after(agenda: Seq<TaskView>, j: int, t: TaskView) -> bool {
    exists|i: int| j < i && #[trigger] at(agenda, i, t)
}

/// Whether `t` is one of the tasks.
spec fn has_task(agenda: Seq<TaskView>, t: TaskView) -> bool {
    exists|i: int| #[trigger] at(agenda, i, t)
}

/// Whether a task lists a local directory that `p` lies below.
spec fn scans_above(task: TaskView, p: PathView) -> bool {
    task matches TaskView::Ask { request: RequestView::ReadLocalDir { path }, policy: Policy::Scan }
        && below(path, p)
}

/// Whether a task of the agenda lists a local directory that `p` lies below.
spec fn scanned_above(agenda: Seq<TaskView>, p: PathView) -> bool {
    exists|i: int| 0 <= i < agenda.len() && #[trigger] scans_above(agenda[i], p)
}

/// Whether the path is empty, has one component, or lies in a directory of
/// the store.
spec fn parent_ok(fs: RemoteFs, q: PathView) -> bool {
    q.len() <= 1 || dir_at(fs, q.drop_last())
}

/// Whether `p` is a node below the local root.
pub open spec fn local_at(e: EngineView, local: LocalFs, p: PathView) -> bool {
    local.dom().contains(p) && below(e.local_root, p)
}

/// Whether a directory with the permission bits `mode` may be created at
/// `q`: `q` mirrors a local directory with these bits, and its parent is
/// there.
spec fn creatable(e: EngineView, local: LocalFs, fs: RemoteFs, q: PathView, mode: u32) -> bool {
    &&& below(e.remote_root, q)
    &&& local_at(e, local, source(e, q))
    &&& local[source(e, q)] is Dir
    &&& mode == bits_of(local[source(e, q)])
    &&& parent_ok(fs, q)
}

/// Whether the mirror of the local directory `d` is there, so that what is
/// in `d` can be mirrored.
spec fn ready(e: EngineView, fs: RemoteFs, d: PathView) -> bool {
    mirror(e, d).len() == 0 || dir_at(fs, mirror(e, d))
}

/// The task that creates the mirror of the local node `p`.
spec fn creator(e: EngineView, local: LocalFs, p: PathView) -> TaskView {
    if local[p] is Dir {
        make_dir(mirror(e, p), bits_of(local[p]))
    } else {
        upload_task(p, mirror(e, p))
    }
}

/// Whether the task at `i` can be run when its turn comes without harm and
/// without failing.
spec fn lawful_at(
    e: EngineView,
    local: LocalFs,
    fs: RemoteFs,
    agenda: Seq<TaskView>,
    i: int,
) -> bool {
    match agenda[i] {
        TaskView::Ask { request: RequestView::Mkdir { path, mode }, policy: Policy::ProbeOnFail } => {
            dir_at(fs, path) || creatable(e, local, fs, path, mode)
        },
        TaskView::Ask { request: RequestView::Stat { path }, policy: Policy::MustExist } => {
            fs.dom().contains(path)
        },
        TaskView::Ask { request: RequestView::Upload { local: p, remote }, policy: Policy::MustUpload } => {
            &&& local_at(e, local, p)
            &&& local[p] is File
            &&& remote == mirror(e, p)
            &&& parent_ok(fs, remote)
            &&& has_after(agenda, i, set_mode_task(remote, bits_of(local[p])))
        },
        TaskView::Ask { request: RequestView::SetMode { path, mode }, policy: Policy::Ignore } => {
            &&& below(e.remote_root, path)
            &&& local_at(e, local, source(e, path))
            &&& local[source(e, path)] is File
            &&& mode == bits_of(local[source(e, path)])
            &&& (fs.dom().contains(path) || has_before(
                agenda,
                i,
                upload_task(source(e, path), path),
            ))
        },
        TaskView::Ask { request: RequestView::ReadLocalDir { path }, policy: Policy::Scan } => {
            &&& local.dom().contains(path)
            &&& local[path] is Dir
            &&& e.local_root.is_prefix_of(path)
            &&& (ready(e, fs, path) || has_before(
                agenda,
                i,
                make_dir(mirror(e, path), bits_of(local[path])),
            ))
        },
        _ => false,
    }
}

/// Whether every node below the remote root mirrors its source, but perhaps
/// for the permission bits of a file whose bits a task is still to set.
spec fn kept(e: EngineView, local: LocalFs, fs: RemoteFs, agenda: Seq<TaskView>) -> bool {
    forall|q: PathView| #[trigger]
        fs.dom().contains(q) && below(e.remote_root, q) ==> {
            let p = source(e, q);
            &&& local_at(e, local, p)
            &&& half_mirrors(local[p], fs[q])
            &&& (mirrors(local[p], fs[q]) || has_task(agenda, set_mode_task(q, bits_of(local[p]))))
        }
}

/// Whether every directory and file below the local root is mirrored, or
/// will be: its mirror is there, or a task creates it, or a directory above
/// it is still to be listed.
spec fn promised(e: EngineView, local: LocalFs, fs: RemoteFs, agenda: Seq<TaskView>) -> bool {
    forall|p: PathView| #[trigger]
        local.dom().contains(p) && below(e.local_root, p) && !(local[p] is Other) ==> {
            ||| fs.dom().contains(mirror(e, p))
            ||| has_task(agenda, creator(e, local, p))
            ||| scanned_above(agenda, p)
        }
}

/// Whether the store `fs` holds, at and above the remote root and beside it,
/// exactly what `before` held.
pub open spec fn same_elsewhere(e: EngineView, before: RemoteFs, fs: RemoteFs) -> bool {
    forall|q: PathView|
        !below(e.remote_root, q) ==> (#[trigger] fs.dom().contains(q)) == before.dom().contains(q)
            && fs[q] == before[q]
}

/// What holds of a full sync between two steps: the store is a tree with
/// the remote root in it, what it holds below the root mirrors the local
/// tree, all of the local tree is mirrored or will be, every task can be
/// run, and the rest of the store is as it was.
spec fn syncing(
    e: EngineView,
    local: LocalFs,
    before: RemoteFs,
    fs: RemoteFs,
    agenda: Seq<TaskView>,
) -> bool {
    &&& is_tree(fs)
    &&& root_ready(e, fs)
    &&& kept(e, local, fs, agenda)
    &&& promised(e, local, fs, agenda)
    &&& same_elsewhere(e, before, fs)
    &&& forall|i: int| 0 <= i < agenda.len() ==> #[trigger] lawful_at(e, local, fs, agenda, i)
}

proof fn lemma_mirror(e: EngineView, p: PathView)
    requires
        e.local_root.is_prefix_of(p),
    ensures
        source(e, mirror(e, p)) == p,
        e.remote_root.is_prefix_of(mirror(e, p)),
        mirror(e, p).len() == e.remote_root.len() + p.len() - e.local_root.len(),
        below(e.remote_root, mirror(e, p)) == below(e.local_root, p),
        below(e.local_root, p) ==> mirror(e, p).last() == p.last() && mirror(e, p).drop_last()
            == mirror(e, p.drop_last()) && e.local_root.is_prefix_of(p.drop_last()),
{
    let l = e.local_root.len() as int;
    let m = mirror(e, p);
    assert(m.skip(e.remote_root.len() as int) =~= p.skip(l));
    assert(e.local_root + p.skip(l) =~= p);
    assert(e.remote_root =~= m.subrange(0, e.remote_root.len() as int));
    if below(e.local_root, p) {
        assert(m.drop_last() =~= e.remote_root + p.drop_last().skip(l));
        assert(e.local_root =~= p.drop_last().subrange(0, l));
    }
}

proof fn lemma_source(e: EngineView, q: PathView)
    requires
        e.remote_root.is_prefix_of(q),
    ensures
        mirror(e, source(e, q)) == q,
        e.local_root.is_prefix_of(source(e, q)),
        below(e.local_root, source(e, q)) == below(e.remote_root, q),
{
    let r = e.remote_root.len() as int;
    let s = source(e, q);
    assert(s.skip(e.local_root.len() as int) =~= q.skip(r));
    assert(e.remote_root + q.skip(r) =~= q);
    assert(e.local_root =~= s.subrange(0, e.local_root.len() as int));
}

/// Below the local root every prefix of a node's path is a node, with an
/// ordinary name, and a directory if it is a proper prefix.
proof fn lemma_local_ancestors(e: EngineView, local: LocalFs, p: PathView, k: int)
    requires
        is_local_tree(e, local),
        local_at(e, local, p),
        e.local_root.len() < k <= p.len(),
    ensures
        local_at(e, local, p.take(k)),
        is_name(p[k - 1]),
        k < p.len() ==> local[p.take(k)] is Dir,
    decreases p.len(),
{
    if k == p.len() {
        assert(p.take(k) =~= p);
    } else {
        let up = p.drop_last();
        assert(e.local_root =~= up.subrange(0, e.local_root.len() as int));
        lemma_local_ancestors(e, local, up, k);
        assert(up.take(k) =~= p.take(k));
        if k == p.len() - 1 {
            assert(p.take(k) =~= up);
        }
    }
}

/// The engine maps a node below the local root to its mirror.
proof fn lemma_remote_of(e: EngineView, local: LocalFs, p: PathView)
    requires
        is_local_tree(e, local),
        local_at(e, local, p),
    ensures
        e.remote_of(p) == Some(mirror(e, p)),
{
    let l = e.local_root.len() as int;
    let rel = p.skip(l);
    lemma_local_ancestors(e, local, p, l + 1);
    assert(rel[0] == p[l]);
    assert(root_part() =~= seq!['/']);
    assert(cur_part() =~= seq!['.']);
    assert(rel[0] != root_part());
    assert(rel[0] != cur_part());
    assert(join_of(e.remote_root, rel) =~= e.remote_root + rel);
}

/// A task of an agenda keeps its place, moved by what is put before it,
/// when the first task gives way to new tasks before and behind the rest.
proof fn lemma_embed(old: Seq<TaskView>, before: Seq<TaskView>, behind: Seq<TaskView>, i: int, t: TaskView)
    requires
        old.len() > 0,
        1 <= i,
    ensures
        at(old, i, t) == at(before + old.skip(1), i - 1 + before.len(), t),
        at(old, i, t) ==> at(before + old.skip(1) + behind, i - 1 + before.len(), t),
{
    let next = before + old.skip(1);
    if i < old.len() {
        assert(next[i - 1 + before.len()] == old[i]);
        assert((next + behind)[i - 1 + before.len()] == old[i]);
    }
}

/// Whether the store behind the first task holds what later tasks waited
/// for: the directory behind a mkdir, the file behind an upload.
spec fn served(first: TaskView, fs: RemoteFs) -> bool {
    match first {
        TaskView::Ask { request: RequestView::Mkdir { path, .. }, policy: Policy::ProbeOnFail } => dir_at(
            fs,
            path,
        ),
        TaskView::Ask { request: RequestView::Upload { remote, .. }, policy: Policy::MustUpload } => fs.dom().contains(
            remote,
        ),
        _ => true,
    }
}

/// Whether the store `fs2` holds all that `fs` held, directories as
/// directories.
spec fn grown(fs: RemoteFs, fs2: RemoteFs) -> bool {
    &&& forall|q: PathView| #[trigger] fs.dom().contains(q) ==> fs2.dom().contains(q)
    &&& forall|q: PathView| #[trigger] dir_at(fs, q) ==> dir_at(fs2, q)
}

#[verifier::rlimit(50)]
proof fn lemma_rest_lawful(
    e: EngineView,
    local: LocalFs,
    fs: RemoteFs,
    fs2: RemoteFs,
    old: Seq<TaskView>,
    before: Seq<TaskView>,
    behind: Seq<TaskView>,
    i: int,
)
    requires
        1 <= i < old.len(),
        lawful_at(e, local, fs, old, i),
        grown(fs, fs2),
        served(old[0], fs2),
    ensures
        lawful_at(e, local, fs2, before + old.skip(1) + behind, i - 1 + before.len()),
{
    let next = before + old.skip(1) + behind;
    let k = i - 1 + before.len();
    lemma_embed(old, before, behind, i, old[i]);
    assert(next[k] == old[i]);
    match old[i] {
        TaskView::Ask { request: RequestView::Mkdir { path, mode }, policy } => {
            if !dir_at(fs, path) {
                assert(parent_ok(fs, path));
                if path.len() > 1 {
                    assert(dir_at(fs, path.drop_last()));
                }
            }
        },
        TaskView::Ask { request: RequestView::Stat { path }, policy } => {},
        TaskView::Ask { request: RequestView::Upload { local: p, remote }, policy } => {
            let t = set_mode_task(remote, bits_of(local[p]));
            let j = choose|j: int| i < j && #[trigger] at(old, j, t);
            lemma_embed(old, before, behind, j, t);
            assert(at(next, j - 1 + before.len(), t));
            if remote.len() > 1 {
                assert(dir_at(fs, remote.drop_last()));
            }
        },
        TaskView::Ask { request: RequestView::SetMode { path, mode }, policy } => {
            if !fs.dom().contains(path) {
                let t = upload_task(source(e, path), path);
                let j = choose|j: int| j < i && #[trigger] at(old, j, t);
                if j >= 1 {
                    lemma_embed(old, before, behind, j, t);
                    assert(at(next, j - 1 + before.len(), t));
                }
            }
        },
        TaskView::Ask { request: RequestView::ReadLocalDir { path }, policy } => {
            if !ready(e, fs, path) {
                let t = make_dir(mirror(e, path), bits_of(local[path]));
                let j = choose|j: int| j < i && #[trigger] at(old, j, t);
                if j >= 1 {
                    lemma_embed(old, before, behind, j, t);
                    assert(at(next, j - 1 + before.len(), t));
                }
            } else if mirror(e, path).len() > 0 {
                assert(dir_at(fs, mirror(e, path)));
            }
        },
        _ => {},
    }
}

proof fn lemma_kept_same(
    e: EngineView,
    local: LocalFs,
    fs: RemoteFs,
    old: Seq<TaskView>,
    before: Seq<TaskView>,
    behind: Seq<TaskView>,
)
    requires
        old.len() > 0,
        kept(e, local, fs, old),
        !(old[0] matches TaskView::Ask { request: RequestView::SetMode { .. }, .. }),
    ensures
        kept(e, local, fs, before + old.skip(1) + behind),
{
    let next = before + old.skip(1) + behind;
    assert forall|q: PathView| #[trigger] fs.dom().contains(q) && below(e.remote_root, q) implies {
        let p = source(e, q);
        &&& local_at(e, local, p)
        &&& half_mirrors(local[p], fs[q])
        &&& (mirrors(local[p], fs[q]) || has_task(next, set_mode_task(q, bits_of(local[p]))))
    } by {
        let p = source(e, q);
        if !mirrors(local[p], fs[q]) {
            let t = set_mode_task(q, bits_of(local[p]));
            let j = choose|j: int| #[trigger] at(old, j, t);
            lemma_embed(old, before, behind, j, t);
            assert(at(next, j - 1 + before.len(), t));
        }
    }
}

proof fn lemma_kept_change(
    e: EngineView,
    local: LocalFs,
    fs: RemoteFs,
    fs2: RemoteFs,
    old: Seq<TaskView>,
    q0: PathView,
)
    requires
        old.len() > 0,
        kept(e, local, fs, old),
        forall|q: PathView|
            q != q0 ==> (#[trigger] fs2.dom().contains(q)) == fs.dom().contains(q) && fs2[q]
                == fs[q],
        fs2.dom().contains(q0),
        local_at(e, local, source(e, q0)),
        half_mirrors(local[source(e, q0)], fs2[q0]),
        mirrors(local[source(e, q0)], fs2[q0]) || has_task(
            old.skip(1),
            set_mode_task(q0, bits_of(local[source(e, q0)])),
        ),
        old[0] matches TaskView::Ask { request: RequestView::SetMode { path, .. }, .. } ==> path
            == q0,
    ensures
        kept(e, local, fs2, old.skip(1)),
{
    let next = old.skip(1);
    let none = Seq::<TaskView>::empty();
    assert(none + old.skip(1) =~= next);
    assert forall|q: PathView| #[trigger] fs2.dom().contains(q) && below(e.remote_root, q) implies {
        let p = source(e, q);
        &&& local_at(e, local, p)
        &&& half_mirrors(local[p], fs2[q])
        &&& (mirrors(local[p], fs2[q]) || has_task(next, set_mode_task(q, bits_of(local[p]))))
    } by {
        let p = source(e, q);
        if q != q0 {
            assert(fs.dom().contains(q));
            if !mirrors(local[p], fs[q]) {
                let t = set_mode_task(q, bits_of(local[p]));
                let j = choose|j: int| #[trigger] at(old, j, t);
                lemma_embed(old, none, none, j, t);
                assert(at(next, j - 1, t));
            }
        }
    }
}

proof fn lemma_promised_step(
    e: EngineView,
    local: LocalFs,
    fs: RemoteFs,
    fs2: RemoteFs,
    old: Seq<TaskView>,
    before: Seq<TaskView>,
    behind: Seq<TaskView>,
)
    requires
        old.len() > 0,
        promised(e, local, fs, old),
        grown(fs, fs2),
        forall|p: PathView| #[trigger]
            local.dom().contains(p) && below(e.local_root, p) && !(local[p] is Other) && (old[0]
                == creator(e, local, p) || scans_above(old[0], p)) ==> {
                ||| fs2.dom().contains(mirror(e, p))
                ||| has_task(before + old.skip(1) + behind, creator(e, local, p))
                ||| scanned_above(before + old.skip(1) + behind, p)
            },
    ensures
        promised(e, local, fs2, before + old.skip(1) + behind),
{
    let next = before + old.skip(1) + behind;
    assert forall|p: PathView| #[trigger]
        local.dom().contains(p) && below(e.local_root, p) && !(local[p] is Other) implies {
        ||| fs2.dom().contains(mirror(e, p))
        ||| has_task(next, creator(e, local, p))
        ||| scanned_above(next, p)
    } by {
        if fs.dom().contains(mirror(e, p)) {
        } else if has_task(old, creator(e, local, p)) {
            let t = creator(e, local, p);
            let j = choose|j: int| #[trigger] at(old, j, t);
            if j >= 1 {
                lemma_embed(old, before, behind, j, t);
                assert(at(next, j - 1 + before.len(), t));
            }
        } else {
            let j = choose|j: int| 0 <= j < old.len() && #[trigger] scans_above(old[j], p);
            if j >= 1 {
                lemma_embed(old, before, behind, j, old[j]);
                assert(next[j - 1 + before.len()] == old[j]);
                assert(scans_above(next[j - 1 + before.len()], p));
            }
        }
    }
}

/// Whether a task lists a local directory whose mirror one of the tasks
/// `now` creates.
spec fn listed_later(e: EngineView, local: LocalFs, now: Seq<TaskView>, task: TaskView) -> bool {
    task matches TaskView::Ask { request: RequestView::ReadLocalDir { path }, policy: Policy::Scan }
        && local_at(e, local, path) && local[path] is Dir && has_task(
        now,
        make_dir(mirror(e, path), bits_of(local[path])),
    )
}

/// Whether a plan takes care of the first `k` entries of a listing: it did
/// not stop, each of its tasks can be run, each directory it lists later is
/// one whose mirror it creates, and each entry has its creating task, and
/// its listing if it is a directory.
spec fn planned(
    e: EngineView,
    local: LocalFs,
    fs: RemoteFs,
    entries: Seq<LocalEntryView>,
    k: int,
    plan: ScanPlan,
) -> bool {
    &&& !plan.stopped
    &&& forall|i: int| 0 <= i < plan.now.len() ==> #[trigger] lawful_at(e, local, fs, plan.now, i)
    &&& forall|i: int|
        0 <= i < plan.later.len() ==> listed_later(e, local, plan.now, #[trigger] plan.later[i])
    &&& forall|j: int|
        0 <= j < k ==> {
            let c = (#[trigger] entries[j]).path;
            &&& !(local[c] is Other) ==> has_task(plan.now, creator(e, local, c))
            &&& local[c] is Dir ==> has_task(plan.later, scan_task(c))
        }
}

proof fn lemma_lawful_prefix(
    e: EngineView,
    local: LocalFs,
    fs: RemoteFs,
    a: Seq<TaskView>,
    b: Seq<TaskView>,
    i: int,
)
    requires
        0 <= i < a.len(),
        lawful_at(e, local, fs, a, i),
    ensures
        lawful_at(e, local, fs, a + b, i),
{
    let all = a + b;
    assert(all[i] == a[i]);
    match a[i] {
        TaskView::Ask { request: RequestView::Upload { local: p, remote }, policy } => {
            let t = set_mode_task(remote, bits_of(local[p]));
            let j = choose|j: int| i < j && #[trigger] at(a, j, t);
            assert(at(all, j, t));
        },
        TaskView::Ask { request: RequestView::SetMode { path, mode }, policy } => {
            if !fs.dom().contains(path) {
                let t = upload_task(source(e, path), path);
                let j = choose|j: int| j < i && #[trigger] at(a, j, t);
                assert(at(all, j, t));
            }
        },
        TaskView::Ask { request: RequestView::ReadLocalDir { path }, policy } => {
            if !ready(e, fs, path) {
                let t = make_dir(mirror(e, path), bits_of(local[path]));
                let j = choose|j: int| j < i && #[trigger] at(a, j, t);
                assert(at(all, j, t));
            }
        },
        _ => {},
    }
}

proof fn lemma_has_task_prefix(a: Seq<TaskView>, b: Seq<TaskView>, t: TaskView)
    requires
        has_task(a, t),
    ensures
        has_task(a + b, t),
{
    let j = choose|j: int| #[trigger] at(a, j, t);
    assert(at(a + b, j, t));
}

/// The mirror of a directory that is ready, and every directory above it,
/// are directories of the store.
proof fn lemma_dirs_above(fs: RemoteFs, m: PathView, k: int)
    requires
        is_tree(fs),
        m.len() == 0 || dir_at(fs, m),
        1 <= k <= m.len(),
    ensures
        dir_at(fs, m.take(k)),
{
    if k == m.len() {
        assert(m.take(k) =~= m);
    } else {
        lemma_ancestors(fs, m, k);
    }
}

/// The tasks that make sure of a directory which is there can all be run.
proof fn lemma_chain_there(
    e: EngineView,
    local: LocalFs,
    fs: RemoteFs,
    all: Seq<TaskView>,
    at0: int,
    m: PathView,
    mode: u32,
    i: int,
)
    requires
        is_tree(fs),
        m.len() == 0 || dir_at(fs, m),
        0 <= i < m.len(),
        0 <= at0,
        at0 + i < all.len(),
        all[at0 + i] == ensure_dir_tasks(m, mode)[i],
    ensures
        lawful_at(e, local, fs, all, at0 + i),
{
    lemma_dirs_above(fs, m, i + 1);
}

#[verifier::rlimit(80)]
proof fn lemma_plan(
    e: EngineView,
    local: LocalFs,
    fs: RemoteFs,
    d: PathView,
    entries: Seq<LocalEntryView>,
    k: int,
)
    requires
        is_local_tree(e, local),
        nothing_excluded(e, local),
        is_tree(fs),
        local.dom().contains(d),
        e.local_root.is_prefix_of(d),
        ready(e, fs, d),
        lists_local(local, d, entries),
        0 <= k <= entries.len(),
    ensures
        planned(e, local, fs, entries, k, scan_entries(e, entries.take(k))),
    decreases k,
{
    let part = entries.take(k);
    let plan = scan_entries(e, part);
    if k == 0 {
        assert(part =~= Seq::<LocalEntryView>::empty());
    } else {
        lemma_plan(e, local, fs, d, entries, k - 1);
        let prev = scan_entries(e, entries.take(k - 1));
        assert(part.drop_last() =~= entries.take(k - 1));
        let entry = entries[k - 1];
        assert(part.last() == entry);
        let c = entry.path;
        assert(child_of(d, c));
        assert(c.drop_last() =~= d);
        assert(below(e.local_root, c)) by {
            assert(e.local_root =~= c.subrange(0, e.local_root.len() as int));
        }
        assert(local_at(e, local, c));
        lemma_remote_of(e, local, c);
        lemma_mirror(e, c);
        lemma_mirror(e, d);
        let m = mirror(e, c);
        let md = mirror(e, d);
        assert(m.drop_last() == md);
        let meta = meta_of(local[c]);
        assert(plan == scan_entry(e, prev, entry));
        let block = transfer_tasks(c, m, meta);
        assert(plan.now == prev.now + block);
        let o = prev.now.len() as int;
        assert(parent_ok(fs, m));
        assert forall|i: int| 0 <= i < plan.now.len() implies #[trigger] lawful_at(
            e,
            local,
            fs,
            plan.now,
            i,
        ) by {
            if i < o {
                lemma_lawful_prefix(e, local, fs, prev.now, block, i);
            } else {
                let b = i - o;
                assert(plan.now[i] == block[b]);
                match local[c] {
                    LocalNode::Dir { mode } => {
                        assert(block == ensure_dir_tasks(m, perm_bits(mode)));
                        if b + 1 < m.len() {
                            assert(m.take(b + 1) =~= md.take(b + 1));
                            lemma_dirs_above(fs, md, b + 1);
                        } else {
                            assert(m.take(b + 1) =~= m);
                            assert(creatable(e, local, fs, m, perm_bits(mode)));
                        }
                    },
                    LocalNode::File { content, mode } => {
                        assert(is_name(m.last()));
                        assert(parent_of(m) == Some(md));
                        let parents = ensure_dir_tasks(md, DEFAULT_DIR_MODE);
                        let tail = upload_tasks(c, m, perm_bits(mode));
                        assert(block == parents + tail);
                        let n = parents.len() as int;
                        if b < n {
                            assert(block[b] == parents[b]);
                            lemma_chain_there(e, local, fs, plan.now, o, md, DEFAULT_DIR_MODE, b);
                        } else if b == n {
                            assert(block[b] == upload_task(c, m));
                            assert(plan.now[i + 1] == block[b + 1]);
                            assert(at(plan.now, i + 1, set_mode_task(m, perm_bits(mode))));
                        } else {
                            assert(block[b] == set_mode_task(m, perm_bits(mode)));
                            assert(plan.now[i - 1] == block[b - 1]);
                            assert(at(plan.now, i - 1, upload_task(c, m)));
                        }
                    },
                    LocalNode::Other { mode } => {},
                }
            }
        }
        assert forall|i: int| 0 <= i < plan.later.len() implies listed_later(
            e,
            local,
            plan.now,
            #[trigger] plan.later[i],
        ) by {
            if i < prev.later.len() {
                assert(plan.later[i] == prev.later[i]);
                assert(listed_later(e, local, prev.now, prev.later[i]));
                let path = plan.later[i]->Ask_request->ReadLocalDir_path;
                lemma_has_task_prefix(
                    prev.now,
                    block,
                    make_dir(mirror(e, path), bits_of(local[path])),
                );
            } else {
                assert(plan.later[i] == scan_task(c));
                assert(local[c] is Dir);
                assert(block.len() == m.len());
                assert(m.take(m.len() as int) =~= m);
                assert(at(plan.now, o + m.len() - 1, make_dir(m, bits_of(local[c]))));
            }
        }
        assert forall|j: int| 0 <= j < k implies {
            let cj = (#[trigger] entries[j]).path;
            &&& !(local[cj] is Other) ==> has_task(plan.now, creator(e, local, cj))
            &&& local[cj] is Dir ==> has_task(plan.later, scan_task(cj))
        } by {
            let cj = entries[j].path;
            if j < k - 1 {
                if !(local[cj] is Other) {
                    lemma_has_task_prefix(prev.now, block, creator(e, local, cj));
                }
                if local[cj] is Dir {
                    let t = scan_task(cj);
                    let w = choose|w: int| #[trigger] at(prev.later, w, t);
                    assert(at(plan.later, w, t));
                }
            } else {
                match local[c] {
                    LocalNode::Dir { mode } => {
                        assert(block.len() == m.len());
                        assert(m.take(m.len() as int) =~= m);
                        assert(at(plan.now, o + m.len() - 1, creator(e, local, c)));
                        assert(at(plan.later, plan.later.len() - 1, scan_task(c)));
                    },
                    LocalNode::File { content, mode } => {
                        assert(parent_of(m) == Some(md));
                        let parents = ensure_dir_tasks(md, DEFAULT_DIR_MODE);
                        assert(block == parents + upload_tasks(c, m, perm_bits(mode)));
                        assert(block[parents.len() as int] == upload_task(c, m));
                        assert(at(plan.now, o + parents.len(), creator(e, local, c)));
                    },
                    LocalNode::Other { mode } => {},
                }
            }
        }
    }
}

/// What is asked of the local tree: it is a tree under the local root, and
/// the filter lets all of it pass.
spec fn settled(e: EngineView, local: LocalFs) -> bool {
    is_local_tree(e, local) && nothing_excluded(e, local)
}

proof fn lemma_insert_keeps_tree(fs: RemoteFs, q: PathView, node: RemoteNode)
    requires
        is_tree(fs),
        q.len() >= 1,
        q.last() != up_part(),
        parent_ok(fs, q),
        fs.dom().contains(q) ==> (fs[q] is Dir) == (node is Dir),
    ensures
        is_tree(fs.insert(q, node)),
        grown(fs, fs.insert(q, node)),
{
    let fs2 = fs.insert(q, node);
    assert forall|p: PathView| #[trigger] dir_at(fs, p) implies dir_at(fs2, p) by {}
    assert forall|p: PathView| #[trigger] fs2.dom().contains(p) implies p.len() >= 1 && p.last()
        != up_part() && (p.len() >= 2 ==> dir_at(fs2, p.drop_last())) by {
        if p != q {
            assert(fs.dom().contains(p));
            if p.len() >= 2 {
                assert(dir_at(fs, p.drop_last()));
            }
        } else if p.len() >= 2 {
            assert(dir_at(fs, p.drop_last()));
        }
    }
}

proof fn lemma_same_elsewhere(e: EngineView, before: RemoteFs, fs: RemoteFs, q: PathView, node: RemoteNode)
    requires
        same_elsewhere(e, before, fs),
        below(e.remote_root, q),
    ensures
        same_elsewhere(e, before, fs.insert(q, node)),
{
    let fs2 = fs.insert(q, node);
    assert forall|p: PathView| !below(e.remote_root, p) implies (#[trigger] fs2.dom().contains(p))
        == before.dom().contains(p) && fs2[p] == before[p] by {
        assert(fs.dom().contains(p) == before.dom().contains(p));
    }
}

proof fn lemma_root_ready(e: EngineView, fs: RemoteFs, fs2: RemoteFs)
    requires
        root_ready(e, fs),
        grown(fs, fs2),
    ensures
        root_ready(e, fs2),
{
    assert forall|k: int| 1 <= k <= e.remote_root.len() implies dir_at(
        fs2,
        #[trigger] e.remote_root.take(k),
    ) by {
        assert(dir_at(fs, e.remote_root.take(k)));
    }
}

/// Dropping the first task once it has run leaves every other task lawful
/// and every promise standing, where the store has grown and now holds what
/// the first task was there to make.
proof fn lemma_drop(e: EngineView, local: LocalFs, fs: RemoteFs, fs2: RemoteFs, old: Seq<TaskView>)
    requires
        old.len() > 0,
        forall|i: int| 0 <= i < old.len() ==> #[trigger] lawful_at(e, local, fs, old, i),
        promised(e, local, fs, old),
        grown(fs, fs2),
        served(old[0], fs2),
        !(old[0] matches TaskView::Ask { request: RequestView::ReadLocalDir { .. }, .. }),
        forall|p: PathView| #[trigger]
            local.dom().contains(p) && below(e.local_root, p) && old[0] == creator(e, local, p)
                ==> fs2.dom().contains(mirror(e, p)),
    ensures
        forall|i: int|
            0 <= i < old.skip(1).len() ==> #[trigger] lawful_at(e, local, fs2, old.skip(1), i),
        promised(e, local, fs2, old.skip(1)),
{
    let none = Seq::<TaskView>::empty();
    let rest = old.skip(1);
    assert(none + old.skip(1) + none =~= rest);
    assert forall|i: int| 0 <= i < rest.len() implies #[trigger] lawful_at(
        e,
        local,
        fs2,
        rest,
        i,
    ) by {
        assert(lawful_at(e, local, fs, old, i + 1));
        lemma_rest_lawful(e, local, fs, fs2, old, none, none, i + 1);
    }
    lemma_promised_step(e, local, fs, fs2, old, none, none);
}

proof fn lemma_grown_same(fs: RemoteFs)
    ensures
        grown(fs, fs),
{
}

#[verifier::rlimit(50)]
proof fn lemma_step_mkdir(
    e: EngineView,
    local: LocalFs,
    before: RemoteFs,
    fs: RemoteFs,
    old: Seq<TaskView>,
    q: PathView,
    mode: u32,
)
    requires
        settled(e, local),
        syncing(e, local, before, fs, old),
        old.len() > 0,
        old[0] == make_dir(q, mode),
    ensures
        dir_at(fs, q) ==> !can_create(fs, q) && syncing(
            e,
            local,
            before,
            fs,
            seq![probe_task(q)] + old.skip(1),
        ),
        !dir_at(fs, q) ==> can_create(fs, q) && syncing(
            e,
            local,
            before,
            fs.insert(q, RemoteNode::Dir { mode }),
            old.skip(1),
        ),
{
    let none = Seq::<TaskView>::empty();
    assert(lawful_at(e, local, fs, old, 0));
    if dir_at(fs, q) {
        let head = seq![probe_task(q)];
        let next = head + old.skip(1);
        assert(head + old.skip(1) + none =~= next);
        lemma_grown_same(fs);
        assert forall|i: int| 0 <= i < next.len() implies #[trigger] lawful_at(
            e,
            local,
            fs,
            next,
            i,
        ) by {
            if i >= 1 {
                assert(lawful_at(e, local, fs, old, i));
                lemma_rest_lawful(e, local, fs, fs, old, head, none, i);
            }
        }
        lemma_kept_same(e, local, fs, old, head, none);
        assert forall|p: PathView| #[trigger]
            local.dom().contains(p) && below(e.local_root, p) && !(local[p] is Other) && (old[0]
                == creator(e, local, p) || scans_above(old[0], p)) implies fs.dom().contains(
            mirror(e, p),
        ) by {}
        lemma_promised_step(e, local, fs, fs, old, head, none);
    } else {
        let p = source(e, q);
        let node = RemoteNode::Dir { mode };
        let fs2 = fs.insert(q, node);
        assert(e.remote_root.is_prefix_of(q));
        lemma_source(e, q);
        lemma_mirror(e, p);
        assert(is_name(q.last()));
        if fs.dom().contains(q) {
            assert(half_mirrors(local[p], fs[q]));
        }
        assert(can_create(fs, q));
        lemma_insert_keeps_tree(fs, q, node);
        lemma_root_ready(e, fs, fs2);
        lemma_same_elsewhere(e, before, fs, q, node);
        lemma_kept_change(e, local, fs, fs2, old, q);
        assert forall|other: PathView| #[trigger]
            local.dom().contains(other) && below(e.local_root, other) && old[0] == creator(
                e,
                local,
                other,
            ) implies fs2.dom().contains(mirror(e, other)) by {}
        lemma_drop(e, local, fs, fs2, old);
    }
}

proof fn lemma_step_probe(
    e: EngineView,
    local: LocalFs,
    before: RemoteFs,
    fs: RemoteFs,
    old: Seq<TaskView>,
    q: PathView,
)
    requires
        settled(e, local),
        syncing(e, local, before, fs, old),
        old.len() > 0,
        old[0] == probe_task(q),
    ensures
        fs.dom().contains(q),
        syncing(e, local, before, fs, old.skip(1)),
{
    let none = Seq::<TaskView>::empty();
    assert(lawful_at(e, local, fs, old, 0));
    assert(none + old.skip(1) + none =~= old.skip(1));
    lemma_grown_same(fs);
    lemma_kept_same(e, local, fs, old, none, none);
    assert forall|p: PathView| #[trigger]
        local.dom().contains(p) && below(e.local_root, p) && old[0] == creator(
            e,
            local,
            p,
        ) implies fs.dom().contains(mirror(e, p)) by {}
    lemma_drop(e, local, fs, fs, old);
}

#[verifier::rlimit(50)]
proof fn lemma_step_upload(
    e: EngineView,
    local: LocalFs,
    before: RemoteFs,
    fs: RemoteFs,
    old: Seq<TaskView>,
    p: PathView,
    r: PathView,
)
    requires
        settled(e, local),
        syncing(e, local, before, fs, old),
        old.len() > 0,
        old[0] == upload_task(p, r),
    ensures
        local.dom().contains(p),
        local[p] is File,
        file_at(fs, r) || can_create(fs, r),
        syncing(
            e,
            local,
            before,
            fs.insert(
                r,
                RemoteNode::File {
                    content: local[p]->File_content,
                    mode: if fs.dom().contains(r) {
                        fs[r]->File_mode
                    } else {
                        created_file_mode()
                    },
                },
            ),
            old.skip(1),
        ),
{
    let none = Seq::<TaskView>::empty();
    assert(lawful_at(e, local, fs, old, 0));
    lemma_mirror(e, p);
    assert(is_name(r.last()));
    if fs.dom().contains(r) {
        assert(half_mirrors(local[p], fs[r]));
    }
    let node = RemoteNode::File {
        content: local[p]->File_content,
        mode: if fs.dom().contains(r) {
            fs[r]->File_mode
        } else {
            created_file_mode()
        },
    };
    let fs2 = fs.insert(r, node);
    lemma_insert_keeps_tree(fs, r, node);
    lemma_root_ready(e, fs, fs2);
    lemma_same_elsewhere(e, before, fs, r, node);
    let t = set_mode_task(r, bits_of(local[p]));
    let j = choose|j: int| 0 < j && #[trigger] at(old, j, t);
    lemma_embed(old, none, none, j, t);
    assert(none + old.skip(1) =~= old.skip(1));
    assert(at(old.skip(1), j - 1, t));
    lemma_kept_change(e, local, fs, fs2, old, r);
    assert forall|other: PathView| #[trigger]
        local.dom().contains(other) && below(e.local_root, other) && old[0] == creator(
            e,
            local,
            other,
        ) implies fs2.dom().contains(mirror(e, other)) by {}
    lemma_drop(e, local, fs, fs2, old);
}

/// A node of the store with other permission bits.
spec fn with_mode(node: RemoteNode, mode: u32) -> RemoteNode {
    match node {
        RemoteNode::Dir { .. } => RemoteNode::Dir { mode },
        RemoteNode::File { content, .. } => RemoteNode::File { content, mode },
    }
}

proof fn lemma_step_set_mode(
    e: EngineView,
    local: LocalFs,
    before: RemoteFs,
    fs: RemoteFs,
    old: Seq<TaskView>,
    r: PathView,
    bits: u32,
)
    requires
        settled(e, local),
        syncing(e, local, before, fs, old),
        old.len() > 0,
        old[0] == set_mode_task(r, bits),
    ensures
        fs.dom().contains(r),
        syncing(e, local, before, fs.insert(r, with_mode(fs[r], bits)), old.skip(1)),
{
    assert(lawful_at(e, local, fs, old, 0));
    let p = source(e, r);
    assert(fs.dom().contains(r));
    assert(half_mirrors(local[p], fs[r]));
    let node = with_mode(fs[r], bits);
    let fs2 = fs.insert(r, node);
    assert(r.len() >= 1 && r.last() != up_part() && parent_ok(fs, r));
    lemma_insert_keeps_tree(fs, r, node);
    lemma_root_ready(e, fs, fs2);
    lemma_same_elsewhere(e, before, fs, r, node);
    lemma_kept_change(e, local, fs, fs2, old, r);
    assert forall|other: PathView| #[trigger]
        local.dom().contains(other) && below(e.local_root, other) && old[0] == creator(
            e,
            local,
            other,
        ) implies fs2.dom().contains(mirror(e, other)) by {}
    lemma_drop(e, local, fs, fs2, old);
}

#[verifier::rlimit(50)]
proof fn lemma_scan_lawful(
    e: EngineView,
    local: LocalFs,
    fs: RemoteFs,
    old: Seq<TaskView>,
    entries: Seq<LocalEntryView>,
    plan: ScanPlan,
)
    requires
        old.len() > 0,
        old[0] matches TaskView::Ask { request: RequestView::ReadLocalDir { .. }, .. },
        forall|i: int| 0 <= i < old.len() ==> #[trigger] lawful_at(e, local, fs, old, i),
        planned(e, local, fs, entries, entries.len() as int, plan),
    ensures
        forall|i: int|
            0 <= i < (plan.now + old.skip(1) + plan.later).len() ==> #[trigger] lawful_at(
                e,
                local,
                fs,
                plan.now + old.skip(1) + plan.later,
                i,
            ),
{
    let now = plan.now;
    let later = plan.later;
    let rest = old.skip(1);
    let next = now + rest + later;
    assert forall|i: int| 0 <= i < next.len() implies #[trigger] lawful_at(
        e,
        local,
        fs,
        next,
        i,
    ) by {
        if i < now.len() {
            assert(lawful_at(e, local, fs, now, i));
            lemma_lawful_prefix(e, local, fs, now, rest + later, i);
            assert(now + (rest + later) =~= next);
        } else if i < now.len() + rest.len() {
            let k = i - now.len() + 1;
            assert(lawful_at(e, local, fs, old, k));
            lemma_rest_lawful(e, local, fs, fs, old, now, later, k);
        } else {
            let k = i - now.len() - rest.len();
            lemma_scan_later(e, local, fs, now, rest, later, k);
        }
    }
}

proof fn lemma_scan_later(
    e: EngineView,
    local: LocalFs,
    fs: RemoteFs,
    now: Seq<TaskView>,
    rest: Seq<TaskView>,
    later: Seq<TaskView>,
    k: int,
)
    requires
        0 <= k < later.len(),
        listed_later(e, local, now, later[k]),
    ensures
        lawful_at(e, local, fs, now + rest + later, now.len() + rest.len() + k),
{
    let next = now + rest + later;
    let i = now.len() + rest.len() + k;
    assert(next[i] == later[k]);
    let path = later[k]->Ask_request->ReadLocalDir_path;
    let t = make_dir(mirror(e, path), bits_of(local[path]));
    let j = choose|j: int| #[trigger] at(now, j, t);
    assert(at(next, j, t));
    assert(e.local_root.is_prefix_of(path));
}

/// Whatever lies below a directory that has just been listed has its
/// creating task among the new tasks, or lies below a directory that is
/// listed later.
proof fn lemma_scan_promise(
    e: EngineView,
    local: LocalFs,
    fs: RemoteFs,
    d: PathView,
    entries: Seq<LocalEntryView>,
    plan: ScanPlan,
    rest: Seq<TaskView>,
    p: PathView,
)
    requires
        is_local_tree(e, local),
        e.local_root.is_prefix_of(d),
        lists_local(local, d, entries),
        planned(e, local, fs, entries, entries.len() as int, plan),
        local.dom().contains(p),
        below(d, p),
        !(local[p] is Other),
    ensures
        has_task(plan.now + rest + plan.later, creator(e, local, p)) || scanned_above(
            plan.now + rest + plan.later,
            p,
        ),
{
    let now = plan.now;
    let later = plan.later;
    let next = now + rest + later;
    assert(below(e.local_root, p)) by {
        assert(e.local_root =~= p.subrange(0, e.local_root.len() as int));
    }
    let c = p.take(d.len() as int + 1);
    lemma_local_ancestors(e, local, p, d.len() as int + 1);
    assert(child_of(d, c)) by {
        assert(d =~= c.subrange(0, d.len() as int));
    }
    let j = choose|j: int| 0 <= j < entries.len() && (#[trigger] entries[j]).path == c;
    if p.len() == d.len() + 1 {
        assert(c =~= p);
        let t = creator(e, local, p);
        let w = choose|w: int| #[trigger] at(now, w, t);
        assert(at(next, w, t));
    } else {
        assert(local[c] is Dir);
        let t = scan_task(c);
        let w = choose|w: int| #[trigger] at(later, w, t);
        let k = now.len() + rest.len() + w;
        assert(next[k] == later[w]);
        assert(c.is_prefix_of(p));
        assert(scans_above(next[k], p));
    }
}

#[verifier::rlimit(50)]
proof fn lemma_step_scan(
    e: EngineView,
    local: LocalFs,
    before: RemoteFs,
    fs: RemoteFs,
    old: Seq<TaskView>,
    d: PathView,
    entries: Seq<LocalEntryView>,
)
    requires
        settled(e, local),
        syncing(e, local, before, fs, old),
        old.len() > 0,
        old[0] == scan_task(d),
        local.dom().contains(d) && local[d] is Dir ==> lists_local(local, d, entries),
    ensures
        local.dom().contains(d),
        local[d] is Dir,
        !scan_entries(e, entries).stopped,
        syncing(
            e,
            local,
            before,
            fs,
            scan_entries(e, entries).now + old.skip(1) + scan_entries(e, entries).later,
        ),
{
    assert(lawful_at(e, local, fs, old, 0));
    let plan = scan_entries(e, entries);
    lemma_plan(e, local, fs, d, entries, entries.len() as int);
    assert(entries.take(entries.len() as int) =~= entries);
    let rest = old.skip(1);
    let next = plan.now + rest + plan.later;
    lemma_grown_same(fs);
    lemma_scan_lawful(e, local, fs, old, entries, plan);
    lemma_kept_same(e, local, fs, old, plan.now, plan.later);
    assert forall|p: PathView| #[trigger]
        local.dom().contains(p) && below(e.local_root, p) && !(local[p] is Other) && (old[0]
            == creator(e, local, p) || scans_above(old[0], p)) implies {
        ||| fs.dom().contains(mirror(e, p))
        ||| has_task(next, creator(e, local, p))
        ||| scanned_above(next, p)
    } by {
        lemma_scan_promise(e, local, fs, d, entries, plan, rest, p);
    }
    lemma_promised_step(e, local, fs, fs, old, plan.now, plan.later);
}

/// What holds of a full sync at every moment of a truthful run.
spec fn full_syncing(e: EngineView, run: Run, before: World) -> bool {
    &&& run.world.local == before.local
    &&& match run.ended {
        Some(Ok(_)) => run.worker.current.is_none() && syncing(
            e,
            before.local,
            before.remote,
            run.world.remote,
            Seq::empty(),
        ),
        Some(Err(_)) => false,
        None => run.worker.current.is_some() && syncing(
            e,
            before.local,
            before.remote,
            run.world.remote,
            agenda_of(run.worker),
        ),
    }
}

proof fn lemma_take_up(e: EngineView, local: LocalFs, fs: RemoteFs, next: Seq<TaskView>)
    requires
        next.len() > 0 ==> lawful_at(e, local, fs, next, 0),
    ensures
        next.len() == 0 ==> take_up(next) == (idle(), StepView::Finished(Ok(()))),
        next.len() > 0 ==> take_up(next).1 is Ask && take_up(next).0.current.is_some()
            && agenda_of(take_up(next).0) == next,
{
    if next.len() > 0 {
        let w = take_up(next).0;
        assert(agenda_of(w) =~= next);
    }
}

proof fn lemma_full_syncing_next(
    e: EngineView,
    run: Run,
    before: World,
    reply: ReplyView,
    fs2: RemoteFs,
    next: Seq<TaskView>,
)
    requires
        run.ended.is_none(),
        pending(run).is_some(),
        run.world.local == before.local,
        syncing(e, before.local, before.remote, fs2, next),
        advance(e, run, reply).world == (World { local: before.local, remote: fs2 }),
        advance(e, run, reply).worker == take_up(next).0,
        advance(e, run, reply).ended == crate::model::ending(take_up(next).1),
    ensures
        full_syncing(e, advance(e, run, reply), before),
{
    if next.len() > 0 {
        assert(lawful_at(e, before.local, fs2, next, 0));
    }
    lemma_take_up(e, before.local, fs2, next);
    if next.len() == 0 {
        assert(next =~= Seq::<TaskView>::empty());
    }
}

#[verifier::rlimit(50)]
proof fn lemma_full_syncing_step(e: EngineView, run: Run, before: World, reply: ReplyView)
    requires
        settled(e, before.local),
        full_syncing(e, run, before),
        run.ended.is_none(),
        answers(run.world, pending(run).unwrap(), reply),
    ensures
        full_syncing(e, advance(e, run, reply), before),
{
    let worker = run.worker;
    let old = agenda_of(worker);
    let fs = run.world.remote;
    let local = before.local;
    let current = worker.current.unwrap();
    let none = Seq::<TaskView>::empty();
    assert(old[0] == current);
    assert(old.skip(1) =~= worker.todo);
    assert(lawful_at(e, local, fs, old, 0));
    assert(none + worker.todo + none =~= old.skip(1));
    match current {
        TaskView::Ask { request: RequestView::Mkdir { path, mode }, policy } => {
            lemma_step_mkdir(e, local, before.remote, fs, old, path, mode);
            if dir_at(fs, path) {
                let next = seq![probe_task(path)] + old.skip(1);
                assert(seq![probe_task(path)] + worker.todo + none =~= next);
                lemma_full_syncing_next(e, run, before, reply, fs, next);
            } else {
                lemma_full_syncing_next(
                    e,
                    run,
                    before,
                    reply,
                    fs.insert(path, RemoteNode::Dir { mode }),
                    old.skip(1),
                );
            }
        },
        TaskView::Ask { request: RequestView::Stat { path }, policy } => {
            lemma_step_probe(e, local, before.remote, fs, old, path);
            lemma_full_syncing_next(e, run, before, reply, fs, old.skip(1));
        },
        TaskView::Ask { request: RequestView::Upload { local: p, remote }, policy } => {
            lemma_step_upload(e, local, before.remote, fs, old, p, remote);
            let fs2 = fs.insert(
                remote,
                RemoteNode::File {
                    content: local[p]->File_content,
                    mode: if fs.dom().contains(remote) {
                        fs[remote]->File_mode
                    } else {
                        created_file_mode()
                    },
                },
            );
            lemma_full_syncing_next(e, run, before, reply, fs2, old.skip(1));
        },
        TaskView::Ask { request: RequestView::SetMode { path, mode }, policy } => {
            lemma_step_set_mode(e, local, before.remote, fs, old, path, mode);
            let fs2 = fs.insert(path, with_mode(fs[path], mode));
            assert(crate::model::effect(run.world, RequestView::SetMode { path, mode }) == fs2);
            lemma_full_syncing_next(e, run, before, reply, fs2, old.skip(1));
        },
        TaskView::Ask { request: RequestView::ReadLocalDir { path }, policy } => {
            let entries = reply->LocalListing_entries;
            lemma_step_scan(e, local, before.remote, fs, old, path, entries);
            let plan = scan_entries(e, entries);
            let next = plan.now + old.skip(1) + plan.later;
            assert(plan.now + worker.todo + plan.later =~= next);
            lemma_full_syncing_next(e, run, before, reply, fs, next);
        },
        _ => {},
    }
}

proof fn lemma_full_syncing_run(e: EngineView, run: Run, before: World, replies: Seq<ReplyView>)
    requires
        settled(e, before.local),
        full_syncing(e, run, before),
        truthful(e, run, replies),
    ensures
        full_syncing(e, drive(e, run, replies), before),
    decreases replies.len(),
{
    if replies.len() > 0 {
        lemma_full_syncing_step(e, run, before, replies[0]);
        lemma_full_syncing_run(e, advance(e, run, replies[0]), before, replies.skip(1));
    }
}

/// The full sync mirrors the local tree. Take a local tree of which the
/// filter excludes nothing, and a remote store that is a tree, holds the
/// remote root and holds nothing below it. Whenever a full sync has ended in
/// a world that answers truthfully, it has ended well; the store then holds,
/// for every directory and every file below the local root, its mirror: a
/// directory with the local permission bits, or a file with the local bytes
/// and permission bits; it holds nothing else below the remote root; and the
/// rest of the store and the local tree are as they were.
pub proof fn lemma_full_sync_mirrors_the_tree(e: EngineView, world: World, replies: Seq<ReplyView>)
    requires
        is_local_tree(e, world.local),
        nothing_excluded(e, world.local),
        is_tree(world.remote),
        root_ready(e, world.remote),
        empty_below_root(e, world.remote),
        truthful(e, begin(seq![scan_task(e.local_root)], world), replies),
        drive(e, begin(seq![scan_task(e.local_root)], world), replies).ended.is_some(),
    ensures
        ({
            let end = drive(e, begin(seq![scan_task(e.local_root)], world), replies);
            &&& end.ended matches Some(Ok(_))
            &&& end.world.local == world.local
            &&& forall|p: PathView| #[trigger]
                world.local.dom().contains(p) && below(e.local_root, p) && !(world.local[p]
                    is Other) ==> end.world.remote.dom().contains(mirror(e, p)) && mirrors(
                    world.local[p],
                    end.world.remote[mirror(e, p)],
                )
            &&& forall|q: PathView| #[trigger]
                end.world.remote.dom().contains(q) && below(e.remote_root, q) ==> local_at(
                    e,
                    world.local,
                    source(e, q),
                ) && mirrors(world.local[source(e, q)], end.world.remote[q])
            &&& same_elsewhere(e, world.remote, end.world.remote)
        }),
{
    let first = seq![scan_task(e.local_root)];
    let start = begin(first, world);
    let local = world.local;
    let fs = world.remote;
    assert(agenda_of(start.worker) =~= first);
    assert(syncing(e, local, fs, fs, first)) by {
        assert(mirror(e, e.local_root) =~= e.remote_root);
        if e.remote_root.len() > 0 {
            assert(e.remote_root.take(e.remote_root.len() as int) =~= e.remote_root);
        }
        assert(lawful_at(e, local, fs, first, 0));
        assert forall|p: PathView| #[trigger]
            local.dom().contains(p) && below(e.local_root, p) && !(local[p]
                is Other) implies scanned_above(first, p) by {
            assert(scans_above(first[0], p));
        }
    }
    lemma_full_syncing_run(e, start, world, replies);
    let end = drive(e, start, replies);
    let fs2 = end.world.remote;
    let none = Seq::<TaskView>::empty();
    assert forall|p: PathView| #[trigger]
        local.dom().contains(p) && below(e.local_root, p) && !(local[p]
            is Other) implies fs2.dom().contains(mirror(e, p)) && mirrors(
        local[p],
        fs2[mirror(e, p)],
    ) by {
        lemma_mirror(e, p);
        if has_task(none, creator(e, local, p)) {
            let j = choose|j: int| #[trigger] at(none, j, creator(e, local, p));
        }
        let q = mirror(e, p);
        assert(fs2.dom().contains(q));
        if has_task(none, set_mode_task(q, bits_of(local[p]))) {
            let j = choose|j: int| #[trigger] at(none, j, set_mode_task(q, bits_of(local[p])));
        }
    }
    assert forall|q: PathView| #[trigger] fs2.dom().contains(q) && below(
        e.remote_root,
        q,
    ) implies local_at(e, local, source(e, q)) && mirrors(local[source(e, q)], fs2[q]) by {
        let p = source(e, q);
        if has_task(none, set_mode_task(q, bits_of(local[p]))) {
            let j = choose|j: int| #[trigger] at(none, j, set_mode_task(q, bits_of(local[p])));
        }
    }
}

/// Whether a request touches the local path `x`, its mirror, or anything
/// below either: a remote request with a path at or below the mirror of `x`,
/// or a local one with a path at or below `x`.
pub open spec fn touches(e: EngineView, x: PathView, request: RequestView) -> bool {
    match request {
        RequestView::Upload { local, remote } => x.is_prefix_of(local) || mirror(
            e,
            x,
        ).is_prefix_of(remote),
        RequestView::LocalStat { path } => x.is_prefix_of(path),
        RequestView::ReadLocalDir { path } => x.is_prefix_of(path),
        _ => mirror(e, x).is_prefix_of(request.subject()),
    }
}

/// Whether the store `fs` holds, at the mirror of `x` and below it, exactly
/// what `before` held.
pub open spec fn same_below(e: EngineView, x: PathView, before: RemoteFs, fs: RemoteFs) -> bool {
    forall|q: PathView|
        mirror(e, x).is_prefix_of(q) ==> (#[trigger] fs.dom().contains(q)) == before.dom().contains(
            q,
        ) && fs[q] == before[q]
}

/// Whether a task is one that a full sync is made of and keeps clear of `x`.
spec fn tidy(e: EngineView, x: PathView, task: TaskView) -> bool {
    match task {
        TaskView::Ask { request, policy } => {
            &&& !touches(e, x, request)
            &&& match (request, policy) {
                (RequestView::Mkdir { .. }, Policy::ProbeOnFail) => true,
                (RequestView::Stat { .. }, Policy::MustExist) => true,
                (RequestView::Upload { .. }, Policy::MustUpload) => true,
                (RequestView::SetMode { .. }, Policy::Ignore) => true,
                (RequestView::ReadLocalDir { path }, Policy::Scan) => e.local_root.is_prefix_of(
                    path,
                ),
                _ => false,
            }
        },
        TaskView::Fail { .. } => true,
    }
}

/// What holds of a full sync, as to an excluded `x`, at every moment of a
/// truthful run.
spec fn sparing(e: EngineView, x: PathView, run: Run, before: World) -> bool {
    &&& run.world.local == before.local
    &&& same_below(e, x, before.remote, run.world.remote)
    &&& match run.ended {
        Some(_) => run.worker.current.is_none(),
        None => run.worker.current.is_some() && forall|i: int|
            0 <= i < agenda_of(run.worker).len() ==> tidy(e, x, #[trigger] agenda_of(run.worker)[i]),
    }
}

/// Where the mirror of `x` is a prefix of a path at or above the mirror of
/// `c`, `x` is a prefix of `c`.
proof fn lemma_mirror_reflects(e: EngineView, x: PathView, c: PathView, q: PathView)
    requires
        e.local_root.is_prefix_of(x),
        e.local_root.is_prefix_of(c),
        mirror(e, x).is_prefix_of(q),
        q.is_prefix_of(mirror(e, c)),
    ensures
        x.is_prefix_of(c),
{
    let l = e.local_root.len() as int;
    let r = e.remote_root.len() as int;
    let mx = mirror(e, x);
    let mc = mirror(e, c);
    assert(mx.len() == r + x.len() - l);
    assert(mc.len() == r + c.len() - l);
    assert forall|j: int| 0 <= j < x.len() implies x[j] == c[j] by {
        if j < l {
            assert(x[j] == e.local_root[j]);
            assert(c[j] == e.local_root[j]);
        } else {
            assert(mx[r + j - l] == x[j]);
            assert(mx[r + j - l] == q[r + j - l]);
            assert(q[r + j - l] == mc[r + j - l]);
            assert(mc[r + j - l] == c[j]);
        }
    }
    assert(x =~= c.subrange(0, x.len() as int));
}

/// The tasks that bring a node clear of `x` to its mirror are clear of `x`.
proof fn lemma_transfer_tidy(
    e: EngineView,
    x: PathView,
    c: PathView,
    meta: crate::remote::LocalMeta,
    i: int,
)
    requires
        e.local_root.is_prefix_of(x),
        below(e.local_root, c),
        !x.is_prefix_of(c),
        0 <= i < transfer_tasks(c, mirror(e, c), meta).len(),
    ensures
        tidy(e, x, transfer_tasks(c, mirror(e, c), meta)[i]),
{
    let m = mirror(e, c);
    let block = transfer_tasks(c, m, meta);
    lemma_mirror(e, c);
    assert(m.is_prefix_of(m)) by {
        assert(m =~= m.subrange(0, m.len() as int));
    }
    match meta.kind {
        crate::remote::EntryKind::Dir => {
            let q = m.take(i + 1);
            assert(block[i] == make_dir(q, perm_bits(meta.mode)));
            assert(q.is_prefix_of(m)) by {
                assert(q =~= m.subrange(0, q.len() as int));
            }
            if mirror(e, x).is_prefix_of(q) {
                lemma_mirror_reflects(e, x, c, q);
            }
        },
        crate::remote::EntryKind::File => {
            let parents = match parent_of(m) {
                Some(parent) => ensure_dir_tasks(parent, DEFAULT_DIR_MODE),
                None => Seq::<TaskView>::empty(),
            };
            let tail = upload_tasks(c, m, perm_bits(meta.mode));
            assert(block == parents + tail);
            if i < parents.len() {
                let md = m.drop_last();
                let q = md.take(i + 1);
                assert(block[i] == parents[i]);
                assert(parents[i] == make_dir(q, DEFAULT_DIR_MODE));
                assert(q.is_prefix_of(m)) by {
                    assert(q =~= m.subrange(0, q.len() as int));
                }
                if mirror(e, x).is_prefix_of(q) {
                    lemma_mirror_reflects(e, x, c, q);
                }
            } else {
                assert(block[i] == tail[i - parents.len()]);
                if mirror(e, x).is_prefix_of(m) {
                    lemma_mirror_reflects(e, x, c, m);
                }
            }
        },
        crate::remote::EntryKind::Other => {},
    }
}

#[verifier::rlimit(50)]
proof fn lemma_plan_tidy(
    e: EngineView,
    local: LocalFs,
    x: PathView,
    d: PathView,
    entries: Seq<LocalEntryView>,
    k: int,
)
    requires
        is_local_tree(e, local),
        below(e.local_root, x),
        e.filter().excludes(x),
        e.local_root.is_prefix_of(d),
        !x.is_prefix_of(d),
        lists_local(local, d, entries),
        0 <= k <= entries.len(),
    ensures
        forall|i: int|
            0 <= i < scan_entries(e, entries.take(k)).now.len() ==> tidy(
                e,
                x,
                #[trigger] scan_entries(e, entries.take(k)).now[i],
            ),
        forall|i: int|
            0 <= i < scan_entries(e, entries.take(k)).later.len() ==> tidy(
                e,
                x,
                #[trigger] scan_entries(e, entries.take(k)).later[i],
            ),
    decreases k,
{
    let part = entries.take(k);
    let plan = scan_entries(e, part);
    if k == 0 {
        assert(part =~= Seq::<LocalEntryView>::empty());
    } else {
        lemma_plan_tidy(e, local, x, d, entries, k - 1);
        let prev = scan_entries(e, entries.take(k - 1));
        assert(part.drop_last() =~= entries.take(k - 1));
        let entry = entries[k - 1];
        assert(part.last() == entry);
        assert(plan == scan_entry(e, prev, entry));
        let c = entry.path;
        if !(prev.stopped || e.filter().excludes(c)) {
            assert(child_of(d, c));
            assert(below(e.local_root, c)) by {
                assert(e.local_root =~= c.subrange(0, e.local_root.len() as int));
            }
            lemma_remote_of(e, local, c);
            let meta = meta_of(local[c]);
            let block = transfer_tasks(c, mirror(e, c), meta);
            assert(!x.is_prefix_of(c)) by {
                if x.is_prefix_of(c) {
                    if x.len() == c.len() {
                        assert(x =~= c);
                    } else {
                        assert(x =~= d.subrange(0, x.len() as int));
                    }
                }
            }
            assert(plan.now == prev.now + block);
            assert forall|i: int| 0 <= i < plan.now.len() implies tidy(
                e,
                x,
                #[trigger] plan.now[i],
            ) by {
                if i < prev.now.len() {
                    assert(plan.now[i] == prev.now[i]);
                } else {
                    assert(plan.now[i] == block[i - prev.now.len()]);
                    lemma_transfer_tidy(e, x, c, meta, i - prev.now.len());
                }
            }
            assert forall|i: int| 0 <= i < plan.later.len() implies tidy(
                e,
                x,
                #[trigger] plan.later[i],
            ) by {
                if i < prev.later.len() {
                    assert(plan.later[i] == prev.later[i]);
                } else {
                    assert(plan.later[i] == scan_task(c));
                    assert(e.local_root.is_prefix_of(c));
                }
            }
        }
    }
}

proof fn lemma_sparing_next(
    e: EngineView,
    x: PathView,
    run: Run,
    before: World,
    reply: ReplyView,
    next: Seq<TaskView>,
)
    requires
        run.ended.is_none(),
        pending(run).is_some(),
        advance(e, run, reply).world.local == before.local,
        same_below(e, x, before.remote, advance(e, run, reply).world.remote),
        forall|i: int| 0 <= i < next.len() ==> tidy(e, x, #[trigger] next[i]),
        advance(e, run, reply).worker == take_up(next).0,
        advance(e, run, reply).ended == crate::model::ending(take_up(next).1),
    ensures
        sparing(e, x, advance(e, run, reply), before),
{
    let after = advance(e, run, reply);
    if next.len() > 0 {
        assert(tidy(e, x, next[0]));
        if next[0] is Ask {
            assert(agenda_of(after.worker) =~= next);
        }
    }
}

#[verifier::rlimit(50)]
proof fn lemma_sparing_step(e: EngineView, x: PathView, run: Run, before: World, reply: ReplyView)
    requires
        is_local_tree(e, before.local),
        below(e.local_root, x),
        e.filter().excludes(x),
        sparing(e, x, run, before),
        run.ended.is_none(),
        answers(run.world, pending(run).unwrap(), reply),
    ensures
        sparing(e, x, advance(e, run, reply), before),
{
    let worker = run.worker;
    let old = agenda_of(worker);
    let rest = worker.todo;
    let none = Seq::<TaskView>::empty();
    let current = worker.current.unwrap();
    let after = advance(e, run, reply);
    assert(old[0] == current);
    assert(old.skip(1) =~= rest);
    assert(tidy(e, x, old[0]));
    assert forall|i: int| 0 <= i < rest.len() implies tidy(e, x, #[trigger] rest[i]) by {
        assert(rest[i] == old[i + 1]);
    }
    let request = current->Ask_request;
    assert(same_below(e, x, before.remote, after.world.remote)) by {
        assert forall|q: PathView| mirror(e, x).is_prefix_of(q) implies (
        #[trigger] after.world.remote.dom().contains(q)) == before.remote.dom().contains(q)
            && after.world.remote[q] == before.remote[q] by {
            assert(run.world.remote.dom().contains(q) == before.remote.dom().contains(q));
        }
    }
    match current {
        TaskView::Ask { request: RequestView::Mkdir { path, mode }, policy } => {
            if reply is Done {
                assert(none + rest + none =~= rest);
                lemma_sparing_next(e, x, run, before, reply, rest);
            } else {
                let probe = TaskView::Ask {
                    request: RequestView::Stat { path },
                    policy: Policy::MustExist,
                };
                let all = seq![probe] + rest;
                assert(seq![probe] + rest + none =~= all);
                assert forall|i: int| 0 <= i < all.len() implies tidy(e, x, #[trigger] all[i]) by {
                    if i > 0 {
                        assert(all[i] == rest[i - 1]);
                    }
                }
                lemma_sparing_next(e, x, run, before, reply, all);
            }
        },
        TaskView::Ask { request: RequestView::Stat { path }, policy } => {
            if reply.is_present() {
                assert(none + rest + none =~= rest);
                lemma_sparing_next(e, x, run, before, reply, rest);
            }
        },
        TaskView::Ask { request: RequestView::Upload { local, remote }, policy } => {
            if reply is Done {
                assert(none + rest + none =~= rest);
                lemma_sparing_next(e, x, run, before, reply, rest);
            }
        },
        TaskView::Ask { request: RequestView::SetMode { path, mode }, policy } => {
            assert(none + rest + none =~= rest);
            lemma_sparing_next(e, x, run, before, reply, rest);
        },
        TaskView::Ask { request: RequestView::ReadLocalDir { path }, policy } => {
            if reply is LocalListing {
                let entries = reply->LocalListing_entries;
                lemma_plan_tidy(e, before.local, x, path, entries, entries.len() as int);
                assert(entries.take(entries.len() as int) =~= entries);
                let plan = scan_entries(e, entries);
                let all = plan.now + rest + plan.later;
                assert forall|i: int| 0 <= i < all.len() implies tidy(e, x, #[trigger] all[i]) by {
                    if i < plan.now.len() {
                        assert(all[i] == plan.now[i]);
                    } else if i < plan.now.len() + rest.len() {
                        assert(all[i] == rest[i - plan.now.len()]);
                    } else {
                        assert(all[i] == plan.later[i - plan.now.len() - rest.len()]);
                    }
                }
                lemma_sparing_next(e, x, run, before, reply, all);
            }
        },
        _ => {},
    }
}

proof fn lemma_sparing_run(
    e: EngineView,
    x: PathView,
    run: Run,
    before: World,
    replies: Seq<ReplyView>,
)
    requires
        is_local_tree(e, before.local),
        below(e.local_root, x),
        e.filter().excludes(x),
        sparing(e, x, run, before),
        truthful(e, run, replies),
    ensures
        sparing(e, x, drive(e, run, replies), before),
    decreases replies.len(),
{
    if replies.len() > 0 {
        lemma_sparing_step(e, x, run, before, replies[0]);
        lemma_sparing_run(e, x, advance(e, run, replies[0]), before, replies.skip(1));
    }
}

/// A full sync leaves what is excluded alone. Take a local tree and a path
/// `x` below the local root that the filter excludes. At every moment of a
/// full sync in a world that answers truthfully, the request that the sync
/// waits on touches neither `x` nor its mirror nor anything below them, and
/// the store holds at the mirror of `x` and below it exactly what it held
/// before the sync began.
pub proof fn lemma_full_sync_spares_the_excluded(
    e: EngineView,
    world: World,
    x: PathView,
    replies: Seq<ReplyView>,
)
    requires
        is_local_tree(e, world.local),
        below(e.local_root, x),
        e.filter().excludes(x),
        truthful(e, begin(seq![scan_task(e.local_root)], world), replies),
    ensures
        ({
            let now = drive(e, begin(seq![scan_task(e.local_root)], world), replies);
            &&& pending(now).is_some() ==> !touches(e, x, pending(now).unwrap())
            &&& same_below(e, x, world.remote, now.world.remote)
            &&& now.world.local == world.local
        }),
{
    let first = seq![scan_task(e.local_root)];
    let start = begin(first, world);
    assert(agenda_of(start.worker) =~= first);
    assert(e.local_root.is_prefix_of(e.local_root)) by {
        assert(e.local_root =~= e.local_root.subrange(0, e.local_root.len() as int));
    }
    assert(tidy(e, x, first[0]));
    lemma_sparing_run(e, x, start, world, replies);
    let now = drive(e, start, replies);
    if pending(now).is_some() {
        assert(agenda_of(now.worker)[0] == now.worker.current.unwrap());
        assert(tidy(e, x, agenda_of(now.worker)[0]));
    }
}

} // verus!

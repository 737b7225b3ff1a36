//! What removing a remote path achieves: in a store that answers truthfully,
//! no trace of the path or of anything below it is left, and nothing else is
//! touched.

use crate::engine::EngineView;
use crate::model::{
    advance, agenda_of, answers, begin, below, child_of, childless, dir_at, drive, file_at, is_tree,
    lists_remote, pending, truthful, RemoteFs, Run, World,
};
use crate::path::PathView;
use crate::plan::{entries_removal, entry_removal, is_self_or_up, remove_task, Policy, TaskView};
use crate::remote::{perm_is_dir, RemoteEntryView, ReplyView, RequestView};
use crate::worker::{idle, WorkerView};
use vstd::prelude::*;

verus! {

/// The task that lists a directory and removes what is in it.
spec fn read_task(dir: PathView) -> TaskView {
    TaskView::Ask { request: RequestView::ReadRemoteDir { path: dir }, policy: Policy::RemoveChildren }
}

/// The task that unlinks a file, whatever comes of it.
spec fn unlink_task(file: PathView) -> TaskView {
    TaskView::Ask { request: RequestView::Unlink { path: file }, policy: Policy::Ignore }
}

/// The task that removes an emptied directory, whatever comes of it.
spec fn rmdir_task(dir: PathView) -> TaskView {
    TaskView::Ask { request: RequestView::Rmdir { path: dir }, policy: Policy::Ignore }
}

/// The task that stats a path which could not be unlinked.
spec fn check_task(path: PathView) -> TaskView {
    TaskView::Ask { request: RequestView::Stat { path }, policy: Policy::RemoveIfDir }
}

/// The task that removes one listed entry.
spec fn entry_task(entry: RemoteEntryView) -> TaskView {
    if perm_is_dir(entry.stat.perm) {
        read_task(entry.path)
    } else {
        unlink_task(entry.path)
    }
}

/// The nodes that a task will remove: a listing task stands for the whole
/// tree at its directory, the other two for one node each.
spec fn covers(task: TaskView, n: PathView) -> bool {
    match task {
        TaskView::Ask {
            request: RequestView::ReadRemoteDir { path },
            policy: Policy::RemoveChildren,
        } => path.is_prefix_of(n),
        TaskView::Ask { request: RequestView::Unlink { path }, policy: Policy::Ignore } => n
            == path,
        TaskView::Ask { request: RequestView::Rmdir { path }, policy: Policy::Ignore } => n
            == path,
        _ => false,
    }
}

/// Whether a task is one of the three that a removal is made of, and aims at
/// a node of the right kind at or below `top`.
spec fn lawful(task: TaskView, fs: RemoteFs, top: PathView) -> bool {
    match task {
        TaskView::Ask {
            request: RequestView::ReadRemoteDir { path },
            policy: Policy::RemoveChildren,
        } => dir_at(fs, path) && top.is_prefix_of(path),
        TaskView::Ask { request: RequestView::Unlink { path }, policy: Policy::Ignore } => file_at(
            fs,
            path,
        ) && top.is_prefix_of(path),
        TaskView::Ask { request: RequestView::Rmdir { path }, policy: Policy::Ignore } => dir_at(
            fs,
            path,
        ) && top.is_prefix_of(path),
        _ => false,
    }
}

/// Whether a task removes a directory that `n` lies below.
spec fn empties_above(task: TaskView, n: PathView) -> bool {
    task matches TaskView::Ask { request: RequestView::Rmdir { path }, policy: Policy::Ignore }
        && below(path, n)
}

/// Whether one of the first `j` tasks will remove `n`.
spec fn covered_before(agenda: Seq<TaskView>, j: int, n: PathView) -> bool {
    exists|i: int| 0 <= i < j && i < agenda.len() && #[trigger] covers(agenda[i], n)
}

/// Whether the tasks `agenda`, run in order, sweep the tree at `top` out of
/// the store: every task is lawful; every node at or below `top` will be
/// removed by some task; whatever lies below a directory will be removed
/// before the directory is; and no node is aimed at twice.
spec fn sweeping(agenda: Seq<TaskView>, fs: RemoteFs, top: PathView) -> bool {
    &&& forall|i: int| 0 <= i < agenda.len() ==> lawful(#[trigger] agenda[i], fs, top)
    &&& forall|n: PathView| #[trigger]
        fs.dom().contains(n) && top.is_prefix_of(n) ==> covered_before(
            agenda,
            agenda.len() as int,
            n,
        )
    &&& forall|j: int, n: PathView|
        0 <= j < agenda.len() && #[trigger] empties_above(agenda[j], n) && fs.dom().contains(n)
            ==> covered_before(agenda, j, n)
    &&& forall|i: int, j: int, n: PathView|
        0 <= i < j < agenda.len() && #[trigger] covers(agenda[i], n) && #[trigger] covers(
            agenda[j],
            n,
        ) ==> !fs.dom().contains(n)
}

/// Whether nothing at or below `top` is in the store.
pub open spec fn no_trace(fs: RemoteFs, top: PathView) -> bool {
    forall|n: PathView| #[trigger] fs.dom().contains(n) ==> !top.is_prefix_of(n)
}

/// Whether the store `fs` holds, outside the tree at `top`, exactly what
/// `before` held.
pub open spec fn untouched_outside(before: RemoteFs, fs: RemoteFs, top: PathView) -> bool {
    forall|n: PathView|
        !top.is_prefix_of(n) ==> (#[trigger] fs.dom().contains(n)) == before.dom().contains(n)
            && fs[n] == before[n]
}

proof fn lemma_prefix_trans(a: PathView, b: PathView, c: PathView)
    requires
        a.is_prefix_of(b),
        b.is_prefix_of(c),
    ensures
        a.is_prefix_of(c),
{
    assert(a =~= c.subrange(0, a.len() as int));
}

proof fn lemma_prefix_take(c: PathView, n: PathView)
    requires
        c.is_prefix_of(n),
    ensures
        c == n.take(c.len() as int),
{
}

/// In a tree every proper prefix of a node's path, the empty one apart, is a
/// directory of the store.
pub proof fn lemma_ancestors(fs: RemoteFs, p: PathView, k: int)
    requires
        is_tree(fs),
        fs.dom().contains(p),
        1 <= k < p.len(),
    ensures
        dir_at(fs, p.take(k)),
    decreases p.len(),
{
    if k == p.len() - 1 {
        assert(p.take(k) =~= p.drop_last());
    } else {
        lemma_ancestors(fs, p.drop_last(), k);
        assert(p.drop_last().take(k) =~= p.take(k));
    }
}

proof fn lemma_nothing_below(fs: RemoteFs, top: PathView, n: PathView)
    requires
        is_tree(fs),
        top.len() >= 1,
        !dir_at(fs, top),
        fs.dom().contains(n),
    ensures
        !below(top, n),
{
    if below(top, n) {
        lemma_ancestors(fs, n, top.len() as int);
        lemma_prefix_take(top, n);
    }
}

proof fn lemma_remove_keeps_tree(fs: RemoteFs, p: PathView)
    requires
        is_tree(fs),
        fs.dom().contains(p),
        childless(fs, p),
    ensures
        is_tree(fs.remove(p)),
{
    let smaller = fs.remove(p);
    assert forall|q: PathView| #[trigger] smaller.dom().contains(q) implies q.len() >= 1 && q.last()
        != crate::path::up_part() && (q.len() >= 2 ==> dir_at(smaller, q.drop_last())) by {
        assert(fs.dom().contains(q));
        if q.len() >= 2 {
            assert(dir_at(fs, q.drop_last()));
            if q.drop_last() == p {
                assert(child_of(p, q)) by {
                    assert(p =~= q.subrange(0, p.len() as int));
                }
            }
        }
    }
}

proof fn lemma_file_is_childless(fs: RemoteFs, f: PathView)
    requires
        is_tree(fs),
        file_at(fs, f),
    ensures
        childless(fs, f),
{
    assert forall|q: PathView| #[trigger] fs.dom().contains(q) implies !child_of(f, q) by {
        if child_of(f, q) {
            assert(q.drop_last() =~= f);
            assert(dir_at(fs, q.drop_last()));
        }
    }
}

proof fn lemma_entry_tasks(fs: RemoteFs, dir: PathView, entries: Seq<RemoteEntryView>, upto: int)
    requires
        is_tree(fs),
        lists_remote(fs, dir, entries),
        0 <= upto <= entries.len(),
    ensures
        entries_removal(dir, entries.take(upto)) == Seq::new(
            upto as nat,
            |i: int| entry_task(entries[i]),
        ),
    decreases upto,
{
    let part = entries.take(upto);
    if upto == 0 {
        assert(entries_removal(dir, part) =~= Seq::new(0, |i: int| entry_task(entries[i])));
    } else {
        lemma_entry_tasks(fs, dir, entries, upto - 1);
        assert(part.drop_last() =~= entries.take(upto - 1));
        let entry = entries[upto - 1];
        assert(part.last() == entry);
        assert(fs.dom().contains(entry.path));
        assert(!is_self_or_up(dir, entry.path));
        assert(entry_removal(dir, entry) =~= seq![entry_task(entry)]);
        assert(entries_removal(dir, part) =~= Seq::new(
            upto as nat,
            |i: int| entry_task(entries[i]),
        ));
    }
}

/// The tasks that a truthful listing of `dir` unfolds into: one for each
/// entry, then the removal of `dir`.
spec fn unfolded(dir: PathView, entries: Seq<RemoteEntryView>) -> Seq<TaskView> {
    Seq::new(entries.len(), |i: int| entry_task(entries[i])).push(rmdir_task(dir))
}

proof fn lemma_unfolded(fs: RemoteFs, dir: PathView, entries: Seq<RemoteEntryView>)
    requires
        is_tree(fs),
        lists_remote(fs, dir, entries),
    ensures
        crate::plan::remove_dir_tasks(dir, entries) == unfolded(dir, entries),
{
    lemma_entry_tasks(fs, dir, entries, entries.len() as int);
    assert(entries.take(entries.len() as int) =~= entries);
}

/// A node at or below a listed directory is aimed at by one of the tasks
/// that the listing unfolds into: by the last one if it is the directory
/// itself, and by an earlier one otherwise.
proof fn lemma_unfolded_covers(
    fs: RemoteFs,
    dir: PathView,
    entries: Seq<RemoteEntryView>,
    n: PathView,
) -> (m: int)
    requires
        is_tree(fs),
        dir_at(fs, dir),
        lists_remote(fs, dir, entries),
        fs.dom().contains(n),
        dir.is_prefix_of(n),
    ensures
        0 <= m <= entries.len(),
        covers(unfolded(dir, entries)[m], n),
        (m == entries.len()) == (n == dir),
{
    if n.len() == dir.len() {
        assert(n =~= dir);
        entries.len() as int
    } else {
        let c = n.take(dir.len() as int + 1);
        if n.len() == dir.len() + 1 {
            assert(c =~= n);
        } else {
            lemma_ancestors(fs, n, dir.len() as int + 1);
        }
        assert(fs.dom().contains(c));
        assert(child_of(dir, c)) by {
            assert(dir =~= c.subrange(0, dir.len() as int));
        }
        let m = choose|i: int| 0 <= i < entries.len() && (#[trigger] entries[i]).path == c;
        assert(c.is_prefix_of(n));
        if fs[c] is Dir {
            assert(unfolded(dir, entries)[m] == read_task(c));
        } else {
            if n.len() > c.len() {
                lemma_nothing_below(fs, c, n);
            }
            assert(n =~= c);
            assert(unfolded(dir, entries)[m] == unlink_task(c));
        }
        m
    }
}

/// What a task of an unfolded listing aims at lies at or below the listed
/// directory; and an entry's task aims only at what lies at or below the
/// entry.
proof fn lemma_unfolded_within(
    fs: RemoteFs,
    dir: PathView,
    entries: Seq<RemoteEntryView>,
    m: int,
    n: PathView,
)
    requires
        is_tree(fs),
        lists_remote(fs, dir, entries),
        0 <= m <= entries.len(),
        covers(unfolded(dir, entries)[m], n),
    ensures
        dir.is_prefix_of(n),
        m < entries.len() ==> entries[m].path.is_prefix_of(n) && n.len() > dir.len(),
        m == entries.len() ==> n == dir,
{
    if m < entries.len() {
        let c = entries[m].path;
        assert(unfolded(dir, entries)[m] == entry_task(entries[m]));
        assert(child_of(dir, c));
        assert(c.is_prefix_of(n));
        lemma_prefix_trans(dir, c, n);
    }
}

#[verifier::rlimit(50)]
proof fn lemma_sweep_unfold(
    agenda: Seq<TaskView>,
    fs: RemoteFs,
    top: PathView,
    dir: PathView,
    entries: Seq<RemoteEntryView>,
)
    requires
        is_tree(fs),
        sweeping(agenda, fs, top),
        agenda.len() > 0,
        agenda[0] == read_task(dir),
        lists_remote(fs, dir, entries),
    ensures
        sweeping(unfolded(dir, entries) + agenda.skip(1), fs, top),
{
    let head = unfolded(dir, entries);
    let k = entries.len() as int;
    let next = head + agenda.skip(1);
    assert(lawful(agenda[0], fs, top));
    assert forall|i: int| 0 <= i < next.len() implies lawful(#[trigger] next[i], fs, top) by {
        if i < k {
            let c = entries[i].path;
            assert(next[i] == entry_task(entries[i]));
            assert(child_of(dir, c));
            lemma_prefix_trans(top, dir, c);
        } else if i == k {
            assert(next[i] == rmdir_task(dir));
        } else {
            assert(next[i] == agenda[i - k]);
        }
    }
    assert forall|n: PathView| #[trigger] fs.dom().contains(n) && top.is_prefix_of(
        n,
    ) implies covered_before(next, next.len() as int, n) by {
        assert(covered_before(agenda, agenda.len() as int, n));
        let i0 = choose|i: int| 0 <= i < agenda.len() && #[trigger] covers(agenda[i], n);
        if i0 == 0 {
            let m = lemma_unfolded_covers(fs, dir, entries, n);
            assert(next[m] == head[m]);
            assert(covers(next[m], n));
        } else {
            assert(next[i0 + k] == agenda[i0]);
            assert(covers(next[i0 + k], n));
        }
    }
    assert forall|j: int, n: PathView|
        0 <= j < next.len() && #[trigger] empties_above(next[j], n) && fs.dom().contains(
            n,
        ) implies covered_before(next, j, n) by {
        if j < k {
            assert(next[j] == entry_task(entries[j]));
        } else if j == k {
            assert(next[j] == rmdir_task(dir));
            let m = lemma_unfolded_covers(fs, dir, entries, n);
            assert(next[m] == head[m]);
            assert(covers(next[m], n));
        } else {
            assert(next[j] == agenda[j - k]);
            assert(covered_before(agenda, j - k, n));
            let i0 = choose|i: int| 0 <= i < j - k && i < agenda.len() && #[trigger] covers(agenda[i], n);
            if i0 == 0 {
                let m = lemma_unfolded_covers(fs, dir, entries, n);
                assert(next[m] == head[m]);
                assert(covers(next[m], n));
            } else {
                assert(next[i0 + k] == agenda[i0]);
                assert(covers(next[i0 + k], n));
            }
        }
    }
    assert forall|i: int, j: int, n: PathView|
        0 <= i < j < next.len() && #[trigger] covers(next[i], n) && #[trigger] covers(
            next[j],
            n,
        ) implies !fs.dom().contains(n) by {
        if fs.dom().contains(n) {
            if j <= k {
                assert(next[i] == head[i]);
                assert(next[j] == head[j]);
                lemma_unfolded_within(fs, dir, entries, i, n);
                lemma_unfolded_within(fs, dir, entries, j, n);
                if j < k {
                    let ci = entries[i].path;
                    let cj = entries[j].path;
                    assert(child_of(dir, ci));
                    assert(child_of(dir, cj));
                    lemma_prefix_take(ci, n);
                    lemma_prefix_take(cj, n);
                    assert(ci == cj);
                }
            } else if i <= k {
                assert(next[i] == head[i]);
                lemma_unfolded_within(fs, dir, entries, i, n);
                assert(covers(agenda[0], n));
                assert(next[j] == agenda[j - k]);
                assert(covers(agenda[j - k], n));
            } else {
                assert(next[i] == agenda[i - k]);
                assert(next[j] == agenda[j - k]);
                assert(covers(agenda[i - k], n));
                assert(covers(agenda[j - k], n));
            }
        }
    }
}

/// Running the first task of a sweep, where it removes one node, leaves a
/// sweep of the smaller store.
#[verifier::rlimit(50)]
proof fn lemma_sweep_drop(agenda: Seq<TaskView>, fs: RemoteFs, top: PathView, p: PathView)
    requires
        is_tree(fs),
        sweeping(agenda, fs, top),
        agenda.len() > 0,
        agenda[0] == unlink_task(p) || agenda[0] == rmdir_task(p),
    ensures
        fs.dom().contains(p),
        top.is_prefix_of(p),
        childless(fs, p),
        is_tree(fs.remove(p)),
        sweeping(agenda.skip(1), fs.remove(p), top),
{
    let rest = agenda.skip(1);
    let smaller = fs.remove(p);
    assert(lawful(agenda[0], fs, top));
    if agenda[0] == unlink_task(p) {
        lemma_file_is_childless(fs, p);
    } else {
        assert forall|q: PathView| #[trigger] fs.dom().contains(q) implies !child_of(p, q) by {
            if child_of(p, q) {
                assert(empties_above(agenda[0], q));
                assert(covered_before(agenda, 0, q));
            }
        }
    }
    lemma_remove_keeps_tree(fs, p);
    assert(covers(agenda[0], p));
    assert forall|i: int| 0 <= i < rest.len() implies lawful(#[trigger] rest[i], smaller, top) by {
        assert(rest[i] == agenda[i + 1]);
        assert(lawful(agenda[i + 1], fs, top));
        if covers(agenda[i + 1], p) {
            assert(!fs.dom().contains(p));
        }
        match rest[i] {
            TaskView::Ask { request, policy } => {
                match request {
                    RequestView::ReadRemoteDir { path } => {
                        if path == p {
                            assert(covers(agenda[i + 1], p));
                        }
                    },
                    RequestView::Unlink { path } => {},
                    RequestView::Rmdir { path } => {},
                    _ => {},
                }
            },
            _ => {},
        }
    }
    assert forall|n: PathView| #[trigger] smaller.dom().contains(n) && top.is_prefix_of(
        n,
    ) implies covered_before(rest, rest.len() as int, n) by {
        assert(fs.dom().contains(n));
        assert(covered_before(agenda, agenda.len() as int, n));
        let i0 = choose|i: int| 0 <= i < agenda.len() && #[trigger] covers(agenda[i], n);
        assert(i0 != 0);
        assert(rest[i0 - 1] == agenda[i0]);
        assert(covers(rest[i0 - 1], n));
    }
    assert forall|j: int, n: PathView|
        0 <= j < rest.len() && #[trigger] empties_above(rest[j], n) && smaller.dom().contains(
            n,
        ) implies covered_before(rest, j, n) by {
        assert(rest[j] == agenda[j + 1]);
        assert(fs.dom().contains(n));
        assert(covered_before(agenda, j + 1, n));
        let i0 = choose|i: int| 0 <= i < j + 1 && i < agenda.len() && #[trigger] covers(agenda[i], n);
        assert(i0 != 0);
        assert(rest[i0 - 1] == agenda[i0]);
        assert(covers(rest[i0 - 1], n));
    }
    assert forall|i: int, j: int, n: PathView|
        0 <= i < j < rest.len() && #[trigger] covers(rest[i], n) && #[trigger] covers(
            rest[j],
            n,
        ) implies !smaller.dom().contains(n) by {
        assert(rest[i] == agenda[i + 1]);
        assert(rest[j] == agenda[j + 1]);
        assert(covers(agenda[i + 1], n));
        assert(covers(agenda[j + 1], n));
    }
}

/// What holds of a removal of `top` at every moment of a truthful run that
/// began in the store `before`.
spec fn removing(run: Run, before: World, top: PathView) -> bool {
    let fs = run.world.remote;
    &&& is_tree(fs)
    &&& run.world.local == before.local
    &&& untouched_outside(before.remote, fs, top)
    &&& match run.ended {
        Some(result) => result.is_ok() && run.worker == idle() && no_trace(fs, top),
        None => {
            &&& run.worker.current.is_some()
            &&& {
                ||| agenda_of(run.worker) == seq![remove_task(top)]
                ||| agenda_of(run.worker) == seq![check_task(top)] && !file_at(fs, top)
                ||| sweeping(agenda_of(run.worker), fs, top)
            }
        },
    }
}

proof fn lemma_no_trace_of_absent(fs: RemoteFs, top: PathView)
    requires
        is_tree(fs),
        top.len() >= 1,
        !fs.dom().contains(top),
    ensures
        no_trace(fs, top),
{
    assert forall|n: PathView| #[trigger] fs.dom().contains(n) implies !top.is_prefix_of(n) by {
        if top.is_prefix_of(n) {
            if n.len() == top.len() {
                assert(n =~= top);
            } else {
                lemma_nothing_below(fs, top, n);
            }
        }
    }
}

#[verifier::rlimit(50)]
proof fn lemma_removing_first(e: EngineView, run: Run, before: World, top: PathView, reply: ReplyView)
    requires
        top.len() >= 1,
        removing(run, before, top),
        run.ended.is_none(),
        agenda_of(run.worker) == seq![remove_task(top)],
        answers(run.world, pending(run).unwrap(), reply),
    ensures
        removing(advance(e, run, reply), before, top),
{
    let fs = run.world.remote;
    let worker = run.worker;
    let agenda = agenda_of(worker);
    let next = advance(e, run, reply);
    let none = Seq::<TaskView>::empty();
    assert(agenda[0] == worker.current.unwrap());
    assert(agenda.skip(1) =~= worker.todo);
    assert(worker.todo =~= none);
    if file_at(fs, top) {
        lemma_file_is_childless(fs, top);
        lemma_remove_keeps_tree(fs, top);
        lemma_no_trace_of_absent(fs.remove(top), top);
        assert(none + worker.todo + none =~= none);
        assert(top.is_prefix_of(top));
    } else {
        assert(seq![check_task(top)] + worker.todo + none =~= seq![check_task(top)]);
        assert(agenda_of(next.worker) =~= seq![check_task(top)]);
    }
}

#[verifier::rlimit(50)]
proof fn lemma_removing_check(e: EngineView, run: Run, before: World, top: PathView, reply: ReplyView)
    requires
        top.len() >= 1,
        removing(run, before, top),
        run.ended.is_none(),
        agenda_of(run.worker) == seq![check_task(top)],
        !file_at(run.world.remote, top),
        answers(run.world, pending(run).unwrap(), reply),
    ensures
        removing(advance(e, run, reply), before, top),
{
    let fs = run.world.remote;
    let worker = run.worker;
    let agenda = agenda_of(worker);
    let next = advance(e, run, reply);
    let none = Seq::<TaskView>::empty();
    assert(agenda[0] == worker.current.unwrap());
    assert(agenda.skip(1) =~= worker.todo);
    assert(worker.todo =~= none);
    if dir_at(fs, top) {
        let only = seq![read_task(top)];
        assert(only + worker.todo + none =~= only);
        assert(agenda_of(next.worker) =~= only);
        assert(top.is_prefix_of(top));
        assert(sweeping(only, fs, top)) by {
            assert forall|n: PathView| #[trigger] fs.dom().contains(n) && top.is_prefix_of(
                n,
            ) implies covered_before(only, only.len() as int, n) by {
                assert(covers(only[0], n));
            }
        }
    } else {
        lemma_no_trace_of_absent(fs, top);
        assert(none + worker.todo + none =~= none);
    }
}

#[verifier::rlimit(50)]
proof fn lemma_removing_sweep(e: EngineView, run: Run, before: World, top: PathView, reply: ReplyView)
    requires
        top.len() >= 1,
        removing(run, before, top),
        run.ended.is_none(),
        sweeping(agenda_of(run.worker), run.world.remote, top),
        answers(run.world, pending(run).unwrap(), reply),
    ensures
        removing(advance(e, run, reply), before, top),
{
    let fs = run.world.remote;
    let worker = run.worker;
    let agenda = agenda_of(worker);
    let next = advance(e, run, reply);
    let current = worker.current.unwrap();
    let none = Seq::<TaskView>::empty();
    assert(agenda[0] == current);
    assert(agenda.skip(1) =~= worker.todo);
    assert(lawful(agenda[0], fs, top));
    match current {
        TaskView::Ask { request: RequestView::ReadRemoteDir { path }, policy } => {
            let entries = reply->RemoteListing_0;
            lemma_unfolded(fs, path, entries);
            lemma_sweep_unfold(agenda, fs, top, path, entries);
            let all = unfolded(path, entries) + worker.todo;
            assert(unfolded(path, entries) + worker.todo + none =~= all);
            assert(lawful(all[0], fs, top));
            assert(agenda_of(next.worker) =~= all);
        },
        TaskView::Ask { request: RequestView::Unlink { path }, policy } => {
            lemma_sweep_drop(agenda, fs, top, path);
            assert(none + worker.todo + none =~= worker.todo);
            lemma_removing_rest(run, before, top, path, next);
        },
        TaskView::Ask { request: RequestView::Rmdir { path }, policy } => {
            lemma_sweep_drop(agenda, fs, top, path);
            assert(none + worker.todo + none =~= worker.todo);
            lemma_removing_rest(run, before, top, path, next);
        },
        _ => {},
    }
}

proof fn lemma_removing_step(e: EngineView, run: Run, before: World, top: PathView, reply: ReplyView)
    requires
        top.len() >= 1,
        removing(run, before, top),
        run.ended.is_none(),
        answers(run.world, pending(run).unwrap(), reply),
    ensures
        removing(advance(e, run, reply), before, top),
{
    let agenda = agenda_of(run.worker);
    if agenda == seq![remove_task(top)] {
        lemma_removing_first(e, run, before, top, reply);
    } else if agenda == seq![check_task(top)] && !file_at(run.world.remote, top) {
        lemma_removing_check(e, run, before, top, reply);
    } else {
        lemma_removing_sweep(e, run, before, top, reply);
    }
}

#[verifier::rlimit(50)]
proof fn lemma_removing_rest(run: Run, before: World, top: PathView, p: PathView, next: Run)
    requires
        top.len() >= 1,
        removing(run, before, top),
        run.ended.is_none(),
        top.is_prefix_of(p),
        is_tree(run.world.remote.remove(p)),
        sweeping(run.worker.todo, run.world.remote.remove(p), top),
        next.world == (World { local: run.world.local, remote: run.world.remote.remove(p) }),
        (next.worker, crate::worker::StepView::Finished(Ok(()))) == crate::worker::take_up(
            run.worker.todo,
        ) && next.ended == Some(Ok::<(), crate::remote::SyncErrorView>(())) || (
        run.worker.todo.len() > 0 && next.ended.is_none() && next.worker == (WorkerView {
            current: Some(run.worker.todo[0]),
            todo: run.worker.todo.skip(1),
        })),
    ensures
        removing(next, before, top),
{
    let fs = next.world.remote;
    let todo = run.worker.todo;
    assert forall|n: PathView| !top.is_prefix_of(n) implies (#[trigger] fs.dom().contains(n))
        == before.remote.dom().contains(n) && fs[n] == before.remote[n] by {
        assert(run.world.remote.dom().contains(n) == before.remote.dom().contains(n));
    }
    if todo.len() == 0 {
        assert forall|n: PathView| #[trigger] fs.dom().contains(n) implies !top.is_prefix_of(n) by {
            if top.is_prefix_of(n) {
                assert(covered_before(todo, todo.len() as int, n));
            }
        }
    } else {
        assert(lawful(todo[0], fs, top));
        assert(agenda_of(next.worker) =~= todo);
    }
}

/// One truthful step of a removal keeps what holds of it; so a whole
/// truthful run does.
proof fn lemma_removing_run(
    e: EngineView,
    run: Run,
    before: World,
    top: PathView,
    replies: Seq<ReplyView>,
)
    requires
        top.len() >= 1,
        removing(run, before, top),
        truthful(e, run, replies),
    ensures
        removing(drive(e, run, replies), before, top),
    decreases replies.len(),
{
    if replies.len() > 0 {
        lemma_removing_step(e, run, before, top, replies[0]);
        lemma_removing_run(e, advance(e, run, replies[0]), before, top, replies.skip(1));
    }
}

/// Removing a remote path leaves no trace of it. In a store that is a tree
/// and answers truthfully, whenever the removal of the non-empty path `top`
/// has ended, it has ended well, nothing at or below `top` is left in the
/// store, everything outside the tree at `top` is as it was, and the local
/// tree is as it was. This holds in whatever order directories are listed.
pub proof fn lemma_remove_leaves_no_trace(
    e: EngineView,
    world: World,
    top: PathView,
    replies: Seq<ReplyView>,
)
    requires
        is_tree(world.remote),
        top.len() >= 1,
        truthful(e, begin(seq![remove_task(top)], world), replies),
        drive(e, begin(seq![remove_task(top)], world), replies).ended.is_some(),
    ensures
        ({
            let end = drive(e, begin(seq![remove_task(top)], world), replies);
            &&& end.ended matches Some(Ok(_))
            &&& no_trace(end.world.remote, top)
            &&& untouched_outside(world.remote, end.world.remote, top)
            &&& is_tree(end.world.remote)
            &&& end.world.local == world.local
        }),
{
    let start = begin(seq![remove_task(top)], world);
    assert(agenda_of(start.worker) =~= seq![remove_task(top)]);
    lemma_removing_run(e, start, world, top, replies);
}

/// Removing what is not there changes nothing: where the store holds
/// nothing at `top`, a removal of `top` that has ended has ended well and
/// has left the store as it was. So a delete may be asked for twice.
pub proof fn lemma_remove_absent_changes_nothing(
    e: EngineView,
    world: World,
    top: PathView,
    replies: Seq<ReplyView>,
)
    requires
        is_tree(world.remote),
        top.len() >= 1,
        !world.remote.dom().contains(top),
        truthful(e, begin(seq![remove_task(top)], world), replies),
        drive(e, begin(seq![remove_task(top)], world), replies).ended.is_some(),
    ensures
        ({
            let end = drive(e, begin(seq![remove_task(top)], world), replies);
            &&& end.ended matches Some(Ok(_))
            &&& end.world.remote == world.remote
            &&& end.world.local == world.local
        }),
{
    lemma_remove_leaves_no_trace(e, world, top, replies);
    lemma_no_trace_of_absent(world.remote, top);
    let end = drive(e, begin(seq![remove_task(top)], world), replies);
    assert forall|n: PathView| end.world.remote.dom().contains(n) == world.remote.dom().contains(
        n,
    ) && (world.remote.dom().contains(n) ==> end.world.remote[n] == world.remote[n]) by {
        if top.is_prefix_of(n) {
            assert(!end.world.remote.dom().contains(n));
            assert(!world.remote.dom().contains(n));
        }
    }
    assert(end.world.remote =~= world.remote);
}

/// A delete may be asked for twice. Where the mirror of the local `p` is not
/// in the store, or `p` is excluded or lies outside the local root, a delete
/// of `p` that has ended has ended well and has left the world as it was; so
/// a second delete finds the world of the first and ends well too.
pub proof fn lemma_delete_of_absent_succeeds(
    e: EngineView,
    world: World,
    p: PathView,
    replies: Seq<ReplyView>,
)
    requires
        e.remote_of(p).is_some() ==> !world.remote.dom().contains(e.remote_of(p).unwrap()),
        truthful(e, begin(crate::plan::delete_tasks(e, p), world), replies),
        drive(e, begin(crate::plan::delete_tasks(e, p), world), replies).ended.is_some(),
    ensures
        ({
            let end = drive(e, begin(crate::plan::delete_tasks(e, p), world), replies);
            &&& end.ended matches Some(Ok(_))
            &&& end.world == world
        }),
{
    let tasks = crate::plan::delete_tasks(e, p);
    let start = begin(tasks, world);
    let none = Seq::<TaskView>::empty();
    if tasks.len() > 0 {
        let r = e.remote_of(p).unwrap();
        assert(tasks == seq![remove_task(r)]);
        assert(start.worker.todo =~= none);
        assert(replies.len() > 0);
        assert(pending(start) == Some(RequestView::Unlink { path: r }));
        assert(answers(world, RequestView::Unlink { path: r }, replies[0]));
        assert(replies[0] is Failed);
        let second = advance(e, start, replies[0]);
        assert(seq![check_task(r)] + start.worker.todo + none =~= seq![check_task(r)]);
        assert(second.worker.todo =~= none);
        assert(second.world == world);
        let more = replies.skip(1);
        assert(drive(e, start, replies) == drive(e, second, more));
        assert(truthful(e, second, more));
        assert(second.worker.current == Some(check_task(r)));
        assert(more.len() > 0);
        assert(answers(world, RequestView::Stat { path: r }, more[0]));
        assert(more[0] is Failed);
        let third = advance(e, second, more[0]);
        assert(none + second.worker.todo + none =~= none);
        assert(third.ended matches Some(Ok(_)));
        assert(third.world == world);
        assert(drive(e, second, more) == drive(e, third, more.skip(1)));
        assert(truthful(e, third, more.skip(1)));
        assert(pending(third).is_none());
        assert(more.skip(1).len() == 0);
    } else {
        assert(replies.len() == 0);
    }
}

} // verus!

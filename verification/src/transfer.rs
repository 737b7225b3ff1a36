//! What transferring a file achieves: in a store that answers truthfully, a
//! transfer that goes through leaves the file's bytes and permission bits at
//! its mirror; and transferring an unchanged file again changes nothing in
//! the store.

use crate::engine::EngineView;
use crate::model::{
    advance, agenda_of, answers, begin, drive, pending, truthful, RemoteNode, Run, World,
};
use crate::ops::{transfer_start, transfer_task};
use crate::path::{parent_of, PathView};
use crate::plan::{ensure_dir_tasks, perm_bits, upload_tasks, Policy, TaskView, DEFAULT_DIR_MODE};
use crate::remote::{ReplyView, RequestView};
use vstd::prelude::*;

verus! {

/// Whether a task is part of making sure that a directory exists: a mkdir,
/// or the stat behind a failed one.
spec fn dir_work(task: TaskView) -> bool {
    match task {
        TaskView::Ask { request: RequestView::Mkdir { .. }, policy: Policy::ProbeOnFail } => true,
        TaskView::Ask { request: RequestView::Stat { .. }, policy: Policy::MustExist } => true,
        _ => false,
    }
}

/// Whether the tasks are directory work followed by the upload of `local` to
/// `remote` and the setting of its permission bits.
spec fn uploading(agenda: Seq<TaskView>, local: PathView, remote: PathView, bits: u32) -> bool {
    &&& agenda.len() >= 2
    &&& agenda.skip(agenda.len() - 2) == upload_tasks(local, remote, bits)
    &&& forall|i: int| 0 <= i < agenda.len() - 2 ==> dir_work(#[trigger] agenda[i])
}

/// Whether the store holds at `remote` a file with these bytes.
spec fn holds_bytes(world: World, remote: PathView, content: Seq<u8>) -> bool {
    world.remote.dom().contains(remote) && world.remote[remote] is File
        && world.remote[remote]->File_content == content
}

/// The directories that a transfer to `remote` makes sure of: the parent
/// of `remote` and every directory above it.
spec fn chain_of(remote: PathView) -> Seq<PathView> {
    match parent_of(remote) {
        Some(parent) => Seq::new(parent.len(), |k: int| parent.take(k + 1)),
        None => Seq::empty(),
    }
}

/// Whether a task is directory work on `q`.
spec fn works_on(task: TaskView, q: PathView) -> bool {
    dir_work(task) && task->Ask_request.subject() == q
}

/// Whether directory work on `q` is among the tasks.
spec fn pending_dir(agenda: Seq<TaskView>, q: PathView) -> bool {
    exists|i: int| 0 <= i < agenda.len() && #[trigger] works_on(agenda[i], q)
}

/// Whether each directory of the chain is in the store, or has its work
/// still among the tasks.
spec fn chain_there(world: World, chain: Seq<PathView>, agenda: Seq<TaskView>) -> bool {
    forall|k: int|
        0 <= k < chain.len() ==> world.remote.dom().contains(#[trigger] chain[k]) || pending_dir(
            agenda,
            chain[k],
        )
}

/// What holds of the transfer of the local file `p` at every moment of a
/// truthful run.
spec fn transferring(e: EngineView, run: Run, before: World, p: PathView) -> bool {
    let content = before.local[p]->File_content;
    let bits = perm_bits(before.local[p]->File_mode);
    let r = e.remote_of(p).unwrap();
    let agenda = agenda_of(run.worker);
    &&& run.world.local == before.local
    &&& match run.ended {
        Some(Ok(_)) => run.worker.current.is_none() && run.world.remote.dom().contains(r)
            && run.world.remote[r] == (RemoteNode::File { content, mode: bits }) && chain_there(
            run.world,
            chain_of(r),
            Seq::empty(),
        ),
        Some(Err(_)) => run.worker.current.is_none(),
        None => {
            &&& run.worker.current.is_some()
            &&& {
                ||| agenda == seq![transfer_task(p)]
                ||| uploading(agenda, p, r, bits) && chain_there(run.world, chain_of(r), agenda)
                ||| agenda == seq![upload_tasks(p, r, bits)[1]] && holds_bytes(
                    run.world,
                    r,
                    content,
                ) && chain_there(run.world, chain_of(r), Seq::empty())
            }
        },
    }
}

/// The tasks that a transfer of the file `p` unfolds into are directory work
/// on the chain, then the upload and the setting of the bits.
proof fn lemma_transfer_plan(p: PathView, r: PathView, meta: crate::remote::LocalMeta)
    requires
        meta.kind == crate::remote::EntryKind::File,
    ensures
        ({
            let tasks = crate::plan::transfer_tasks(p, r, meta);
            let chain = chain_of(r);
            &&& uploading(tasks, p, r, perm_bits(meta.mode))
            &&& tasks.len() == chain.len() + 2
            &&& forall|k: int| 0 <= k < chain.len() ==> #[trigger] works_on(tasks[k], chain[k])
        }),
{
    let none = Seq::<TaskView>::empty();
    let tasks = crate::plan::transfer_tasks(p, r, meta);
    let bits = perm_bits(meta.mode);
    let parents = match parent_of(r) {
        Some(parent) => ensure_dir_tasks(parent, DEFAULT_DIR_MODE),
        None => none,
    };
    assert(tasks == parents + upload_tasks(p, r, bits));
    assert(tasks.skip(tasks.len() - 2) =~= upload_tasks(p, r, bits));
    assert forall|i: int| 0 <= i < tasks.len() - 2 implies dir_work(#[trigger] tasks[i]) by {
        assert(tasks[i] == parents[i]);
    }
    assert forall|k: int| 0 <= k < chain_of(r).len() implies #[trigger] works_on(
        tasks[k],
        chain_of(r)[k],
    ) by {
        assert(tasks[k] == parents[k]);
    }
}

/// The chain stays there when the first task gives way to `head`, where the
/// store has lost nothing and what the first task worked on is in the
/// store or worked on by `head`.
proof fn lemma_chain_step(
    world: World,
    world2: World,
    chain: Seq<PathView>,
    agenda: Seq<TaskView>,
    head: Seq<TaskView>,
)
    requires
        agenda.len() > 0,
        chain_there(world, chain, agenda),
        forall|q: PathView| #[trigger]
            world.remote.dom().contains(q) ==> world2.remote.dom().contains(q),
        forall|q: PathView| #[trigger]
            works_on(agenda[0], q) ==> world2.remote.dom().contains(q) || pending_dir(head, q),
    ensures
        chain_there(world2, chain, head + agenda.skip(1)),
{
    let next = head + agenda.skip(1);
    assert forall|k: int| 0 <= k < chain.len() implies world2.remote.dom().contains(
        #[trigger] chain[k],
    ) || pending_dir(next, chain[k]) by {
        let q = chain[k];
        if !world.remote.dom().contains(q) {
            let i = choose|i: int| 0 <= i < agenda.len() && #[trigger] works_on(agenda[i], q);
            if i == 0 {
                if !world2.remote.dom().contains(q) {
                    let j = choose|j: int| 0 <= j < head.len() && #[trigger] works_on(head[j], q);
                    assert(next[j] == head[j]);
                    assert(works_on(next[j], q));
                }
            } else {
                assert(next[i - 1 + head.len()] == agenda[i]);
                assert(works_on(next[i - 1 + head.len()], q));
            }
        }
    }
}

#[verifier::rlimit(50)]
proof fn lemma_transferring_step(e: EngineView, run: Run, before: World, p: PathView, reply: ReplyView)
    requires
        before.local.dom().contains(p),
        before.local[p] is File,
        e.remote_of(p).is_some(),
        transferring(e, run, before, p),
        run.ended.is_none(),
        answers(run.world, pending(run).unwrap(), reply),
    ensures
        transferring(e, advance(e, run, reply), before, p),
{
    let worker = run.worker;
    let agenda = agenda_of(worker);
    let next = advance(e, run, reply);
    let current = worker.current.unwrap();
    let content = before.local[p]->File_content;
    let bits = perm_bits(before.local[p]->File_mode);
    let none = Seq::<TaskView>::empty();
    let r = e.remote_of(p).unwrap();
    let chain = chain_of(r);
    assert(agenda[0] == current);
    assert(agenda.skip(1) =~= worker.todo);
    if agenda == seq![transfer_task(p)] {
        assert(worker.todo =~= none);
        let meta = crate::model::meta_of(before.local[p]);
        assert(reply == ReplyView::LocalMeta(meta));
        let tasks = crate::plan::transfer_tasks(p, r, meta);
        lemma_transfer_plan(p, r, meta);
        assert(tasks + worker.todo + none =~= tasks);
        assert(agenda_of(next.worker) =~= tasks);
        assert forall|k: int| 0 <= k < chain.len() implies pending_dir(
            tasks,
            #[trigger] chain[k],
        ) by {
            assert(works_on(tasks[k], chain[k]));
        }
    } else if uploading(agenda, p, r, bits) {
        let k = agenda.len() - 2;
        let tail = upload_tasks(p, r, bits);
        assert(agenda[k] == agenda.skip(k)[0]);
        assert(agenda[k + 1] == agenda.skip(k)[1]);
        if k == 0 {
            assert(current == tail[0]);
            assert(worker.todo =~= seq![tail[1]]);
            assert(none + worker.todo + none =~= worker.todo);
            assert(!dir_work(agenda[0]) && !dir_work(agenda[1]));
            assert forall|j: int| 0 <= j < chain.len() implies next.world.remote.dom().contains(
                #[trigger] chain[j],
            ) by {
                if pending_dir(agenda, chain[j]) {
                    let i = choose|i: int|
                        0 <= i < agenda.len() && #[trigger] works_on(agenda[i], chain[j]);
                }
            }
            if reply is Done {
                assert(agenda_of(next.worker) =~= seq![tail[1]]);
            }
        } else {
            assert(dir_work(agenda[0]));
            let rest = worker.todo;
            assert(rest.len() >= 2);
            assert(rest.skip(rest.len() - 2) =~= agenda.skip(k));
            assert forall|i: int| 0 <= i < rest.len() - 2 implies dir_work(#[trigger] rest[i]) by {
                assert(rest[i] == agenda[i + 1]);
            }
            match current {
                TaskView::Ask { request: RequestView::Mkdir { path, mode }, policy } => {
                    if reply is Done {
                        assert(none + rest + none =~= rest);
                        assert(agenda_of(next.worker) =~= rest);
                        lemma_chain_step(run.world, next.world, chain, agenda, none);
                        assert(none + agenda.skip(1) =~= rest);
                    } else {
                        let probe = TaskView::Ask {
                            request: RequestView::Stat { path },
                            policy: Policy::MustExist,
                        };
                        let all = seq![probe] + rest;
                        assert(seq![probe] + rest + none =~= all);
                        assert(agenda_of(next.worker) =~= all);
                        assert(all.skip(all.len() - 2) =~= agenda.skip(k));
                        assert forall|i: int| 0 <= i < all.len() - 2 implies dir_work(
                            #[trigger] all[i],
                        ) by {
                            if i > 0 {
                                assert(all[i] == rest[i - 1]);
                            }
                        }
                        assert(works_on(seq![probe][0], path));
                        lemma_chain_step(run.world, next.world, chain, agenda, seq![probe]);
                        assert(seq![probe] + agenda.skip(1) =~= all);
                    }
                },
                TaskView::Ask { request: RequestView::Stat { path }, policy } => {
                    if reply.is_present() {
                        assert(none + rest + none =~= rest);
                        assert(agenda_of(next.worker) =~= rest);
                        lemma_chain_step(run.world, next.world, chain, agenda, none);
                        assert(none + agenda.skip(1) =~= rest);
                    }
                },
                _ => {},
            }
        }
    } else {
        assert(worker.todo =~= none);
        assert(none + worker.todo + none =~= none);
        assert forall|j: int| 0 <= j < chain.len() implies next.world.remote.dom().contains(
            #[trigger] chain[j],
        ) by {
            assert(run.world.remote.dom().contains(chain[j]) || pending_dir(none, chain[j]));
        }
    }
}

proof fn lemma_transferring_run(
    e: EngineView,
    run: Run,
    before: World,
    p: PathView,
    replies: Seq<ReplyView>,
)
    requires
        before.local.dom().contains(p),
        before.local[p] is File,
        e.remote_of(p).is_some(),
        transferring(e, run, before, p),
        truthful(e, run, replies),
    ensures
        transferring(e, drive(e, run, replies), before, p),
    decreases replies.len(),
{
    if replies.len() > 0 {
        lemma_transferring_step(e, run, before, p, replies[0]);
        lemma_transferring_run(e, advance(e, run, replies[0]), before, p, replies.skip(1));
    }
}

/// Whether the world already holds all that a transfer of the file `p`
/// makes: the chain of directories and, at the mirror, the file with the
/// local bytes and permission bits.
spec fn transferred(e: EngineView, world: World, p: PathView) -> bool {
    let r = e.remote_of(p).unwrap();
    &&& world.remote.dom().contains(r)
    &&& world.remote[r] == (RemoteNode::File {
        content: world.local[p]->File_content,
        mode: perm_bits(world.local[p]->File_mode),
    })
    &&& chain_there(world, chain_of(r), Seq::empty())
}

/// What holds of a transfer of the file `p` that begins in a world which
/// holds all that the transfer makes: the world stays as it is.
spec fn repeating(e: EngineView, run: Run, before: World, p: PathView) -> bool {
    let bits = perm_bits(before.local[p]->File_mode);
    let r = e.remote_of(p).unwrap();
    let agenda = agenda_of(run.worker);
    &&& run.world == before
    &&& match run.ended {
        Some(_) => run.worker.current.is_none(),
        None => {
            &&& run.worker.current.is_some()
            &&& {
                ||| agenda == seq![transfer_task(p)]
                ||| uploading(agenda, p, r, bits) && forall|i: int|
                    0 <= i < agenda.len() - 2 ==> before.remote.dom().contains(
                        (#[trigger] agenda[i])->Ask_request.subject(),
                    )
                ||| agenda == seq![upload_tasks(p, r, bits)[1]]
            }
        },
    }
}

#[verifier::rlimit(50)]
proof fn lemma_repeating_step(e: EngineView, run: Run, before: World, p: PathView, reply: ReplyView)
    requires
        before.local.dom().contains(p),
        before.local[p] is File,
        e.remote_of(p).is_some(),
        transferred(e, before, p),
        repeating(e, run, before, p),
        run.ended.is_none(),
        answers(run.world, pending(run).unwrap(), reply),
    ensures
        repeating(e, advance(e, run, reply), before, p),
{
    let worker = run.worker;
    let agenda = agenda_of(worker);
    let next = advance(e, run, reply);
    let current = worker.current.unwrap();
    let bits = perm_bits(before.local[p]->File_mode);
    let none = Seq::<TaskView>::empty();
    let r = e.remote_of(p).unwrap();
    let chain = chain_of(r);
    let fs = before.remote;
    assert(agenda[0] == current);
    assert(agenda.skip(1) =~= worker.todo);
    if agenda == seq![transfer_task(p)] {
        assert(worker.todo =~= none);
        let meta = crate::model::meta_of(before.local[p]);
        assert(reply == ReplyView::LocalMeta(meta));
        let tasks = crate::plan::transfer_tasks(p, r, meta);
        lemma_transfer_plan(p, r, meta);
        assert(tasks + worker.todo + none =~= tasks);
        assert(agenda_of(next.worker) =~= tasks);
        assert forall|i: int| 0 <= i < tasks.len() - 2 implies fs.dom().contains(
            (#[trigger] tasks[i])->Ask_request.subject(),
        ) by {
            assert(works_on(tasks[i], chain[i]));
            assert(fs.dom().contains(chain[i]) || pending_dir(none, chain[i]));
        }
    } else if uploading(agenda, p, r, bits) {
        let k = agenda.len() - 2;
        let tail = upload_tasks(p, r, bits);
        assert(agenda[k] == agenda.skip(k)[0]);
        assert(agenda[k + 1] == agenda.skip(k)[1]);
        if k == 0 {
            assert(current == tail[0]);
            assert(worker.todo =~= seq![tail[1]]);
            assert(none + worker.todo + none =~= worker.todo);
            assert(next.world.remote =~= fs);
            if reply is Done {
                assert(agenda_of(next.worker) =~= seq![tail[1]]);
            }
        } else {
            assert(dir_work(agenda[0]));
            let rest = worker.todo;
            assert(rest.len() >= 2);
            assert(rest.skip(rest.len() - 2) =~= agenda.skip(k));
            assert forall|i: int| 0 <= i < rest.len() - 2 implies dir_work(#[trigger] rest[i])
                && fs.dom().contains(rest[i]->Ask_request.subject()) by {
                assert(rest[i] == agenda[i + 1]);
            }
            assert(fs.dom().contains(agenda[0]->Ask_request.subject()));
            match current {
                TaskView::Ask { request: RequestView::Mkdir { path, mode }, policy } => {
                    assert(!(reply is Done));
                    let probe = TaskView::Ask {
                        request: RequestView::Stat { path },
                        policy: Policy::MustExist,
                    };
                    let all = seq![probe] + rest;
                    assert(seq![probe] + rest + none =~= all);
                    assert(agenda_of(next.worker) =~= all);
                    assert(all.skip(all.len() - 2) =~= agenda.skip(k));
                    assert forall|i: int| 0 <= i < all.len() - 2 implies dir_work(
                        #[trigger] all[i],
                    ) && fs.dom().contains(all[i]->Ask_request.subject()) by {
                        if i > 0 {
                            assert(all[i] == rest[i - 1]);
                        }
                    }
                },
                TaskView::Ask { request: RequestView::Stat { path }, policy } => {
                    if reply.is_present() {
                        assert(none + rest + none =~= rest);
                        assert(agenda_of(next.worker) =~= rest);
                    }
                },
                _ => {},
            }
        }
    } else {
        assert(worker.todo =~= none);
        assert(none + worker.todo + none =~= none);
        assert(next.world.remote =~= fs);
    }
}

proof fn lemma_repeating_run(
    e: EngineView,
    run: Run,
    before: World,
    p: PathView,
    replies: Seq<ReplyView>,
)
    requires
        before.local.dom().contains(p),
        before.local[p] is File,
        e.remote_of(p).is_some(),
        transferred(e, before, p),
        repeating(e, run, before, p),
        truthful(e, run, replies),
    ensures
        repeating(e, drive(e, run, replies), before, p),
    decreases replies.len(),
{
    if replies.len() > 0 {
        lemma_repeating_step(e, run, before, p, replies[0]);
        lemma_repeating_run(e, advance(e, run, replies[0]), before, p, replies.skip(1));
    }
}

/// A transfer that goes through leaves the file at its mirror. Where the
/// local tree holds a file at `p` that the filter lets pass and that lies
/// under the local root, and the transfer of `p` has ended well in a store
/// that answers truthfully, the store holds at the mirror of `p` a file with
/// the local bytes and the local permission bits, and the local tree is as
/// it was.
pub proof fn lemma_transfer_writes_the_file(
    e: EngineView,
    world: World,
    p: PathView,
    replies: Seq<ReplyView>,
)
    requires
        world.local.dom().contains(p),
        world.local[p] is File,
        !e.filter().excludes(p),
        e.remote_of(p).is_some(),
        truthful(e, begin(transfer_start(e, p), world), replies),
        drive(e, begin(transfer_start(e, p), world), replies).ended matches Some(Ok(_)),
    ensures
        ({
            let end = drive(e, begin(transfer_start(e, p), world), replies);
            &&& e.remote_of(p).is_some()
            &&& end.world.remote.dom().contains(e.remote_of(p).unwrap())
            &&& end.world.remote[e.remote_of(p).unwrap()] == (RemoteNode::File {
                content: world.local[p]->File_content,
                mode: perm_bits(world.local[p]->File_mode),
            })
            &&& end.world.local == world.local
        }),
{
    let start = begin(transfer_start(e, p), world);
    assert(agenda_of(start.worker) =~= seq![transfer_task(p)]);
    lemma_transferring_run(e, start, world, p, replies);
}

/// Transferring an unchanged file twice produces an identical remote file.
/// Where two transfers of the local file `p` have ended well, the second
/// begun in the world that the first one left, the mirror of `p` holds after
/// the second exactly what it held after the first, the same bytes and the
/// same permission bits, and no other node of the store differs either: the
/// second transfer leaves the whole world as the first one left it.
pub proof fn lemma_transfer_is_idempotent(
    e: EngineView,
    world: World,
    p: PathView,
    first: Seq<ReplyView>,
    second: Seq<ReplyView>,
)
    requires
        world.local.dom().contains(p),
        world.local[p] is File,
        !e.filter().excludes(p),
        e.remote_of(p).is_some(),
        truthful(e, begin(transfer_start(e, p), world), first),
        drive(e, begin(transfer_start(e, p), world), first).ended matches Some(Ok(_)),
        truthful(
            e,
            begin(transfer_start(e, p), drive(e, begin(transfer_start(e, p), world), first).world),
            second,
        ),
        drive(
            e,
            begin(transfer_start(e, p), drive(e, begin(transfer_start(e, p), world), first).world),
            second,
        ).ended matches Some(Ok(_)),
    ensures
        ({
            let once = drive(e, begin(transfer_start(e, p), world), first).world;
            let twice = drive(e, begin(transfer_start(e, p), once), second).world;
            let mirror = e.remote_of(p).unwrap();
            &&& e.remote_of(p).is_some()
            &&& once.remote.dom().contains(mirror)
            &&& twice.remote.dom().contains(mirror)
            &&& twice.remote[mirror] == once.remote[mirror]
            &&& twice == once
        }),
{
    let start = begin(transfer_start(e, p), world);
    assert(agenda_of(start.worker) =~= seq![transfer_task(p)]);
    lemma_transferring_run(e, start, world, p, first);
    let once = drive(e, start, first).world;
    assert(transferred(e, once, p));
    let again = begin(transfer_start(e, p), once);
    assert(agenda_of(again.worker) =~= seq![transfer_task(p)]);
    lemma_repeating_run(e, again, once, p, second);
}

} // verus!

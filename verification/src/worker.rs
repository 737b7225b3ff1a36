//! The work queue that carries one operation through its requests.
//!
//! A [`Worker`] holds the tasks that an operation still has to do. Each call
//! of [`Worker::step`] reads the answer to the request that is under way,
//! unfolds it into further tasks, and hands out the next request, or says how
//! the operation ended. A driver runs the loop: it performs each request and
//! hands the answer back.

use crate::engine::{Engine, EngineView};
use crate::path::{PathView, SyncPath};
use crate::plan::{
    delete_tasks, plan_delete, plan_remove_dir, plan_scan, plan_transfer, remove_dir_tasks,
    scan_plan, tasks_view, transfer_tasks, Policy, Task, TaskView,
};
use crate::remote::{Reply, ReplyView, Request, RequestView, SyncError, SyncErrorView};
use std::collections::VecDeque;
use vstd::prelude::*;

verus! {

impl RequestView {
    /// The path that the request is about; for an upload, the remote one.
    pub open spec fn subject(self) -> PathView {
        match self {
            RequestView::Mkdir { path, .. } => path,
            RequestView::Stat { path } => path,
            RequestView::Unlink { path } => path,
            RequestView::Rmdir { path } => path,
            RequestView::ReadRemoteDir { path } => path,
            RequestView::Upload { remote, .. } => remote,
            RequestView::SetMode { path, .. } => path,
            RequestView::LocalStat { path } => path,
            RequestView::ReadLocalDir { path } => path,
        }
    }
}

impl Request {
    /// The path that the request is about; for an upload, the remote one.
    pub fn subject(&self) -> (p: &SyncPath)
        ensures
            p@ == self@.subject(),
    {
        match self {
            Request::Mkdir { path, .. } => path,
            Request::Stat { path } => path,
            Request::Unlink { path } => path,
            Request::Rmdir { path } => path,
            Request::ReadRemoteDir { path } => path,
            Request::Upload { remote, .. } => remote,
            Request::SetMode { path, .. } => path,
            Request::LocalStat { path } => path,
            Request::ReadLocalDir { path } => path,
        }
    }
}

/// What the answer to a request unfolds into: tasks to run next, tasks to
/// run when all else is done, or the error that ends the operation.
pub struct Outcome {
    pub now: Seq<TaskView>,
    pub later: Seq<TaskView>,
    pub error: Option<SyncErrorView>,
}

/// The outcome that asks for nothing more.
pub open spec fn go_on() -> Outcome {
    Outcome { now: Seq::empty(), later: Seq::empty(), error: None }
}

/// The outcome that asks for these tasks next.
pub open spec fn next(now: Seq<TaskView>) -> Outcome {
    Outcome { now, later: Seq::empty(), error: None }
}

/// The outcome that ends the operation.
pub open spec fn give_up(error: SyncErrorView) -> Outcome {
    Outcome { now: Seq::empty(), later: Seq::empty(), error: Some(error) }
}

/// How the answer to a request is read under a policy.
pub open spec fn react(e: EngineView, request: RequestView, policy: Policy, reply: ReplyView) -> Outcome {
    let path = request.subject();
    match policy {
        Policy::Ignore => go_on(),
        Policy::ProbeOnFail => if reply is Done {
            go_on()
        } else {
            next(seq![TaskView::Ask { request: RequestView::Stat { path }, policy: Policy::MustExist }])
        },
        Policy::MustExist => if reply.is_present() {
            go_on()
        } else {
            give_up(SyncErrorView::CreateDir { path })
        },
        Policy::MustUpload => if reply is Done {
            go_on()
        } else {
            give_up(SyncErrorView::Upload { path })
        },
        Policy::TryDirOnFail => if reply is Done {
            go_on()
        } else {
            next(seq![TaskView::Ask { request: RequestView::Stat { path }, policy: Policy::RemoveIfDir }])
        },
        Policy::RemoveIfDir => if reply.is_dir() {
            next(
                seq![
                    TaskView::Ask {
                        request: RequestView::ReadRemoteDir { path },
                        policy: Policy::RemoveChildren,
                    },
                ],
            )
        } else {
            go_on()
        },
        Policy::RemoveChildren => match reply {
            ReplyView::RemoteListing(entries) => next(remove_dir_tasks(path, entries)),
            _ => go_on(),
        },
        Policy::TransferOrDelete => match reply {
            ReplyView::LocalMeta(meta) => match e.remote_of(path) {
                Some(remote) => next(transfer_tasks(path, remote, meta)),
                None => go_on(),
            },
            _ => next(delete_tasks(e, path)),
        },
        Policy::Scan => match reply {
            ReplyView::LocalListing { entries, complete } => {
                let plan = scan_plan(e, path, entries, complete);
                Outcome { now: plan.now, later: plan.later, error: None }
            },
            _ => give_up(SyncErrorView::ReadDir { path }),
        },
    }
}

/// The mathematical value of a worker: the task whose request is under way,
/// and the tasks still to do, the next one first.
pub struct WorkerView {
    pub current: Option<TaskView>,
    pub todo: Seq<TaskView>,
}

/// The worker that has nothing under way and nothing to do.
pub open spec fn idle() -> WorkerView {
    WorkerView { current: None, todo: Seq::empty() }
}

/// What a step hands to the driver.
#[derive(Debug)]
pub enum Step {
    /// Perform this request and hand its answer to the next step.
    Ask(Request),
    /// The operation is over: it went through, or it was given up.
    Finished(Result<(), SyncError>),
}

/// The mathematical value of a step.
pub enum StepView {
    Ask(RequestView),
    Finished(Result<(), SyncErrorView>),
}

impl View for Step {
    type V = StepView;

    open spec fn view(&self) -> StepView {
        match *self {
            Step::Ask(request) => StepView::Ask(request@),
            Step::Finished(Ok(())) => StepView::Finished(Ok(())),
            Step::Finished(Err(error)) => StepView::Finished(Err(error@)),
        }
    }
}

/// Takes up the first task of `todo`: its request goes to the driver, a
/// failure ends the operation, and with nothing left the operation is done.
pub open spec fn take_up(todo: Seq<TaskView>) -> (WorkerView, StepView) {
    if todo.len() == 0 {
        (idle(), StepView::Finished(Ok(())))
    } else {
        match todo[0] {
            TaskView::Ask { request, policy } => (
                WorkerView { current: Some(todo[0]), todo: todo.skip(1) },
                StepView::Ask(request),
            ),
            TaskView::Fail { error } => (idle(), StepView::Finished(Err(error))),
        }
    }
}

/// One step of a worker: the answer to the request under way is read by its
/// policy; an error ends the operation and drops what was still to do;
/// otherwise the new tasks go before, and the later ones behind, what was to
/// do, and the first task is taken up. Where nothing is under way the answer
/// is not looked at.
pub open spec fn step_of(e: EngineView, w: WorkerView, reply: ReplyView) -> (WorkerView, StepView) {
    let outcome = match w.current {
        Some(TaskView::Ask { request, policy }) => react(e, request, policy, reply),
        _ => go_on(),
    };
    match outcome.error {
        Some(error) => (idle(), StepView::Finished(Err(error))),
        None => take_up(outcome.now + w.todo + outcome.later),
    }
}

/// The pending work of one operation.
pub struct Worker {
    current: Option<Task>,
    todo: VecDeque<Task>,
}

impl View for Worker {
    type V = WorkerView;

    closed spec fn view(&self) -> WorkerView {
        WorkerView {
            current: match self.current {
                Some(task) => Some(task@),
                None => None,
            },
            todo: tasks_view(self.todo@),
        }
    }
}

proof fn lemma_tasks_view_add(a: Seq<Task>, b: Seq<Task>)
    ensures
        tasks_view(a + b) == tasks_view(a) + tasks_view(b),
{
    assert(tasks_view(a + b) =~= tasks_view(a) + tasks_view(b));
}

fn read_reply(engine: &Engine, request: &Request, policy: Policy, reply: Reply) -> (r: (
    Vec<Task>,
    VecDeque<Task>,
    Option<SyncError>,
))
    ensures
        tasks_view(r.0@) == react(engine@, request@, policy, reply@).now,
        tasks_view(r.1@) == react(engine@, request@, policy, reply@).later,
        r.2.is_some() == react(engine@, request@, policy, reply@).error.is_some(),
        r.2.is_some() ==> r.2.unwrap()@ == react(engine@, request@, policy, reply@).error.unwrap(),
{
    let path = request.subject();
    let mut now: Vec<Task> = Vec::new();
    let mut later: VecDeque<Task> = VecDeque::new();
    let mut error: Option<SyncError> = None;
    proof {
        assert(tasks_view(now@) =~= Seq::<TaskView>::empty());
        assert(tasks_view(later@) =~= Seq::<TaskView>::empty());
    }
    match policy {
        Policy::Ignore => {},
        Policy::ProbeOnFail => {
            if !matches!(reply, Reply::Done) {
                now.push(
                    Task::Ask {
                        request: Request::Stat { path: path.clone_path() },
                        policy: Policy::MustExist,
                    },
                );
            }
        },
        Policy::MustExist => {
            if !reply.is_present() {
                error = Some(SyncError::CreateDir { path: path.clone_path() });
            }
        },
        Policy::MustUpload => {
            if !matches!(reply, Reply::Done) {
                error = Some(SyncError::Upload { path: path.clone_path() });
            }
        },
        Policy::TryDirOnFail => {
            if !matches!(reply, Reply::Done) {
                now.push(
                    Task::Ask {
                        request: Request::Stat { path: path.clone_path() },
                        policy: Policy::RemoveIfDir,
                    },
                );
            }
        },
        Policy::RemoveIfDir => {
            if reply.is_dir() {
                now.push(
                    Task::Ask {
                        request: Request::ReadRemoteDir { path: path.clone_path() },
                        policy: Policy::RemoveChildren,
                    },
                );
            }
        },
        Policy::RemoveChildren => {
            if let Reply::RemoteListing(entries) = reply {
                now = plan_remove_dir(path, &entries);
            }
        },
        Policy::TransferOrDelete => {
            if let Reply::LocalMeta(meta) = reply {
                match engine.remote_of(path) {
                    Some(remote) => {
                        now = plan_transfer(path, &remote, meta);
                    },
                    None => {},
                }
            } else {
                now = plan_delete(engine, path);
            }
        },
        Policy::Scan => {
            if let Reply::LocalListing { entries, complete } = reply {
                let plan = plan_scan(engine, path, &entries, complete);
                now = plan.0;
                later = plan.1;
            } else {
                error = Some(SyncError::ReadDir { path: path.clone_path() });
            }
        },
    }
    proof {
        assert(tasks_view(now@) =~= react(engine@, request@, policy, reply@).now);
        assert(tasks_view(later@) =~= react(engine@, request@, policy, reply@).later);
    }
    (now, later, error)
}

impl Worker {
    /// A worker that has these tasks to do, the first one first.
    pub fn with_tasks(tasks: Vec<Task>) -> (w: Worker)
        ensures
            w@ == (WorkerView { current: None, todo: tasks_view(tasks@) }),
    {
        let mut tasks = tasks;
        let ghost all = tasks@;
        let mut todo: VecDeque<Task> = VecDeque::new();
        assert(tasks@ + todo@ =~= all);
        while tasks.len() > 0
            invariant
                tasks@ + todo@ == all,
            decreases tasks.len(),
        {
            let ghost before = tasks@;
            let ghost rest = todo@;
            let task = tasks.pop().unwrap();
            todo.push_front(task);
            assert(tasks@ + todo@ =~= before + rest);
        }
        assert(todo@ =~= all);
        Worker { current: None, todo }
    }

    /// Whether nothing is under way and nothing is left to do.
    pub fn is_idle(&self) -> (r: bool)
        ensures
            r == (self@ == idle()),
    {
        let r = self.current.is_none() && self.todo.len() == 0;
        proof {
            assert(self@.todo.len() == self.todo@.len());
            if r {
                assert(self@.todo =~= idle().todo);
            }
        }
        r
    }

    /// Reads the answer to the request under way and hands out the next
    /// request, or says how the operation ended.
    pub fn step(&mut self, engine: &Engine, reply: Reply) -> (s: Step)
        ensures
            (final(self)@, s@) == step_of(engine@, old(self)@, reply@),
    {
        let mut current: Option<Task> = None;
        core::mem::swap(&mut self.current, &mut current);
        let (mut now, mut later, error) = match &current {
            Some(Task::Ask { request, policy }) => read_reply(engine, request, *policy, reply),
            _ => (Vec::new(), VecDeque::new(), None),
        };
        proof {
            if !(current matches Some(Task::Ask { .. })) {
                assert(tasks_view(now@) =~= go_on().now);
                assert(tasks_view(later@) =~= go_on().later);
            }
        }
        if let Some(error) = error {
            self.todo.clear();
            assert(tasks_view(self.todo@) =~= idle().todo);
            return Step::Finished(Err(error));
        }
        let ghost front = now@;
        let ghost middle = self.todo@;
        while now.len() > 0
            invariant
                now@ + self.todo@ == front + middle,
                self.current is None,
            decreases now.len(),
        {
            let ghost before = now@;
            let ghost rest = self.todo@;
            let task = now.pop().unwrap();
            self.todo.push_front(task);
            assert(now@ + self.todo@ =~= before + rest);
        }
        proof {
            assert(self.todo@ =~= front + middle);
            lemma_tasks_view_add(front, middle);
            lemma_tasks_view_add(front + middle, later@);
        }
        self.todo.append(&mut later);
        let ghost all = self.todo@;
        match self.todo.pop_front() {
            None => {
                assert(tasks_view(all) =~= Seq::<TaskView>::empty());
                assert(tasks_view(self.todo@) =~= idle().todo);
                Step::Finished(Ok(()))
            },
            Some(Task::Fail { error }) => {
                assert(tasks_view(all)[0] == all[0]@);
                self.todo.clear();
                assert(tasks_view(self.todo@) =~= idle().todo);
                Step::Finished(Err(error))
            },
            Some(Task::Ask { request, policy }) => {
                assert(tasks_view(all)[0] == all[0]@);
                assert(tasks_view(self.todo@) =~= tasks_view(all).skip(1));
                let out = request.clone_request();
                self.current = Some(Task::Ask { request, policy });
                Step::Ask(out)
            },
        }
    }
}

} // verus!

//! The event loop's decisions: what to do with each poll of the hand-off
//! queue, and when a debounce window closes.

use crate::coalesce::{events_view, pairs_view, reduce, reduction, RawEvent, RawEventView};
use crate::engine::{Engine, EngineView};
use crate::intent::{of_interest, Intent};
use crate::path::{PathView, SyncPath};
use crate::remote::{SyncError, SyncErrorView};
use vstd::prelude::*;

verus! {

/// Where the dispatcher stands.
#[derive(Clone, Copy, Debug, PartialEq, Eq, Structural)]
pub enum Phase {
    /// Waiting for the next notification or the end of the window.
    Idle,
    /// Moving notifications from the hand-off queue into the pending log.
    Draining,
    /// The window has closed: its net actions are being applied.
    Reconciling,
}

/// What a poll of the hand-off queue found, without waiting.
#[derive(Debug)]
pub enum Received {
    Event(RawEvent),
    Empty,
    Disconnected,
}

/// The mathematical value of what a poll found.
pub enum ReceivedView {
    Event(RawEventView),
    Empty,
    Disconnected,
}

impl View for Received {
    type V = ReceivedView;

    open spec fn view(&self) -> ReceivedView {
        match *self {
            Received::Event(event) => ReceivedView::Event(event@),
            Received::Empty => ReceivedView::Empty,
            Received::Disconnected => ReceivedView::Disconnected,
        }
    }
}

/// What the loop does after a poll.
#[derive(Debug)]
pub enum Action {
    /// Nothing is due: sleep for a moment and poll again.
    Wait,
    /// The window has closed: apply each net action, one after the other,
    /// then poll again.
    Reconcile(Vec<(SyncPath, Intent)>),
    /// The hand-off queue is gone: leave the loop.
    Exit,
}

/// The mathematical value of an action.
pub enum ActionView {
    Wait,
    Reconcile(Seq<(PathView, Intent)>),
    Exit,
}

impl View for Action {
    type V = ActionView;

    open spec fn view(&self) -> ActionView {
        match *self {
            Action::Wait => ActionView::Wait,
            Action::Reconcile(intents) => ActionView::Reconcile(pairs_view(intents@)),
            Action::Exit => ActionView::Exit,
        }
    }
}

/// The mathematical value of a dispatcher: its phase and the notifications
/// gathered since the last window closed.
pub struct DispatcherView {
    pub phase: Phase,
    pub pending: Seq<RawEventView>,
}

/// The pending log with what a poll found behind it.
pub open spec fn gathered(pending: Seq<RawEventView>, received: ReceivedView) -> Seq<RawEventView> {
    match received {
        ReceivedView::Event(event) => pending.push(event),
        _ => pending,
    }
}

/// One poll of the loop. A disconnected queue ends the loop and leaves the
/// dispatcher as it is. Otherwise a notification that was found joins the
/// pending log; then, where the time since the last window closed has reached
/// the debounce window, the log is reduced and emptied, and else the loop
/// waits.
pub open spec fn poll_of(e: EngineView, d: DispatcherView, received: ReceivedView, elapsed_s: u64) -> (
    DispatcherView,
    ActionView,
) {
    if received is Disconnected {
        (d, ActionView::Exit)
    } else if elapsed_s >= e.debounce_s {
        (
            DispatcherView { phase: Phase::Reconciling, pending: Seq::empty() },
            ActionView::Reconcile(reduction(e.filter(), gathered(d.pending, received))),
        )
    } else {
        (
            DispatcherView {
                phase: if received is Event {
                    Phase::Draining
                } else {
                    Phase::Idle
                },
                pending: gathered(d.pending, received),
            },
            ActionView::Wait,
        )
    }
}

/// The decisions of the event loop.
pub struct Dispatcher {
    phase: Phase,
    pending: Vec<RawEvent>,
}

impl View for Dispatcher {
    type V = DispatcherView;

    closed spec fn view(&self) -> DispatcherView {
        DispatcherView { phase: self.phase, pending: events_view(self.pending@) }
    }
}

/// What the ingestion side forwards of a notification: the notification
/// itself where its kind is of interest, nothing otherwise.
pub fn ingest(event: RawEvent) -> (r: Option<RawEvent>)
    ensures
        r == if of_interest(event.kind) {
            Some(event)
        } else {
            None
        },
{
    if event.kind.is_of_interest() {
        Some(event)
    } else {
        None
    }
}

impl Dispatcher {
    /// A dispatcher that is idle, with nothing pending.
    pub fn new() -> (d: Dispatcher)
        ensures
            d@ == (DispatcherView { phase: Phase::Idle, pending: Seq::empty() }),
    {
        let d = Dispatcher { phase: Phase::Idle, pending: Vec::new() };
        assert(d@.pending =~= Seq::<RawEventView>::empty());
        d
    }

    /// Where the dispatcher stands.
    pub fn phase(&self) -> (p: Phase)
        ensures
            p == self@.phase,
    {
        self.phase
    }

    /// The number of notifications gathered since the last window closed.
    pub fn pending_len(&self) -> (n: usize)
        ensures
            n == self@.pending.len(),
    {
        self.pending.len()
    }

    /// Decides what the loop does with what a poll found, `elapsed_s` whole
    /// seconds after the last window closed.
    pub fn poll(&mut self, engine: &Engine, received: Received, elapsed_s: u64) -> (a: Action)
        ensures
            (final(self)@, a@) == poll_of(engine@, old(self)@, received@, elapsed_s),
    {
        match received {
            Received::Disconnected => {
                return Action::Exit;
            },
            Received::Event(event) => {
                assert(events_view(self.pending@.push(event)) =~= events_view(self.pending@).push(
                    event@,
                ));
                self.pending.push(event);
                self.phase = Phase::Draining;
            },
            Received::Empty => {
                self.phase = Phase::Idle;
            },
        }
        if elapsed_s >= engine.debounce_s() {
            let intents = reduce(engine.filter(), &self.pending);
            self.pending.clear();
            self.phase = Phase::Reconciling;
            assert(events_view(self.pending@) =~= Seq::<RawEventView>::empty());
            Action::Reconcile(intents)
        } else {
            Action::Wait
        }
    }

    /// Marks the end of a reconciliation: the dispatcher is idle again.
    pub fn settle(&mut self)
        ensures
            final(self)@ == (DispatcherView { phase: Phase::Idle, pending: old(self)@.pending }),
    {
        self.phase = Phase::Idle;
    }
}

/// The stage at which an operation was carried out.
#[derive(Clone, Copy, Debug, PartialEq, Eq, Structural)]
pub enum Stage {
    /// Making sure of the remote root at startup.
    Setup,
    /// The full sync at startup.
    FullSync,
    /// Applying the net action of one path after a window has closed.
    Reconcile,
}

/// What follows an operation that has ended.
#[derive(Debug)]
pub enum Verdict {
    /// It went through: go on.
    GoOn,
    /// It failed for one path: report the failure as advice and go on with
    /// the next path and the next window.
    Report(SyncError),
    /// It failed at startup: give up.
    Abort(SyncError),
}

/// The mathematical value of a verdict.
pub enum VerdictView {
    GoOn,
    Report(SyncErrorView),
    Abort(SyncErrorView),
}

impl View for Verdict {
    type V = VerdictView;

    open spec fn view(&self) -> VerdictView {
        match *self {
            Verdict::GoOn => VerdictView::GoOn,
            Verdict::Report(error) => VerdictView::Report(error@),
            Verdict::Abort(error) => VerdictView::Abort(error@),
        }
    }
}

/// The mathematical value of how an operation ended.
pub open spec fn outcome_view(outcome: Result<(), SyncError>) -> Result<(), SyncErrorView> {
    match outcome {
        Ok(_) => Ok(()),
        Err(error) => Err(error@),
    }
}

/// What follows an operation: success goes on; a failure at startup, be it
/// of the setup or of the full sync, ends the run; a failure while
/// reconciling one path is reported and the loop goes on.
pub open spec fn judged(stage: Stage, outcome: Result<(), SyncErrorView>) -> VerdictView {
    match outcome {
        Ok(_) => VerdictView::GoOn,
        Err(error) => if stage == Stage::Reconcile {
            VerdictView::Report(error)
        } else {
            VerdictView::Abort(error)
        },
    }
}

/// Decides what follows an operation that has ended.
pub fn judge(stage: Stage, outcome: Result<(), SyncError>) -> (v: Verdict)
    ensures
        v@ == judged(stage, outcome_view(outcome)),
{
    match outcome {
        Ok(_) => Verdict::GoOn,
        Err(error) => match stage {
            Stage::Reconcile => Verdict::Report(error),
            _ => Verdict::Abort(error),
        },
    }
}

/// One bad path never stops the loop: whatever comes of applying the net
/// action of a path, the verdict is not to give up.
pub proof fn lemma_reconciling_goes_on(outcome: Result<(), SyncErrorView>)
    ensures
        !(judged(Stage::Reconcile, outcome) is Abort),
        judged(Stage::Reconcile, outcome) is GoOn <==> outcome.is_ok(),
{
}

} // verus!

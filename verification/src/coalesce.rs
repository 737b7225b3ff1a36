//! Reducing a window of raw change notifications to one net action per path.

use crate::filter::{FilterView, PathFilter};
use crate::intent::{candidate, EventKind, Intent};
use crate::path::{PathView, SyncPath};
use vstd::prelude::*;

verus! {

/// One change notification: what happened, and to which paths.
#[derive(Debug)]
pub struct RawEvent {
    pub kind: EventKind,
    pub paths: Vec<SyncPath>,
}

/// The mathematical value of a notification.
pub struct RawEventView {
    pub kind: EventKind,
    pub paths: Seq<PathView>,
}

/// The paths that a list of paths stands for.
pub open spec fn paths_view(paths: Seq<SyncPath>) -> Seq<PathView> {
    Seq::new(paths.len(), |i: int| paths[i]@)
}

impl View for RawEvent {
    type V = RawEventView;

    open spec fn view(&self) -> RawEventView {
        RawEventView { kind: self.kind, paths: paths_view(self.paths@) }
    }
}

/// The notifications that a list of events stands for.
pub open spec fn events_view(events: Seq<RawEvent>) -> Seq<RawEventView> {
    Seq::new(events.len(), |i: int| events[i]@)
}

/// The kinds that one notification adds to the history of `p`: its kind, once
/// for each time it names `p`.
pub open spec fn mentions(kind: EventKind, paths: Seq<PathView>, p: PathView) -> Seq<EventKind>
    decreases paths.len(),
{
    if paths.len() == 0 {
        Seq::empty()
    } else if paths.last() == p {
        mentions(kind, paths.drop_last(), p).push(kind)
    } else {
        mentions(kind, paths.drop_last(), p)
    }
}

/// The kinds recorded for `p` over a window, in arrival order.
pub open spec fn history(events: Seq<RawEventView>, p: PathView) -> Seq<EventKind>
    decreases events.len(),
{
    if events.len() == 0 {
        Seq::empty()
    } else {
        history(events.drop_last(), p) + mentions(events.last().kind, events.last().paths, p)
    }
}

/// The net action of a history: what its last actionable kind asks for, and
/// nothing where no kind is actionable.
pub open spec fn net_intent(h: Seq<EventKind>) -> Intent
    decreases h.len(),
{
    if h.len() == 0 {
        Intent::NoOp
    } else if candidate(h.last()) != Intent::NoOp {
        candidate(h.last())
    } else {
        net_intent(h.drop_last())
    }
}

/// `acc` with the paths of `paths` behind it that are neither excluded nor
/// already there.
pub open spec fn with_paths(acc: Seq<PathView>, f: FilterView, paths: Seq<PathView>) -> Seq<
    PathView,
>
    decreases paths.len(),
{
    if paths.len() == 0 {
        acc
    } else {
        let before = with_paths(acc, f, paths.drop_last());
        if before.contains(paths.last()) || f.excludes(paths.last()) {
            before
        } else {
            before.push(paths.last())
        }
    }
}

/// The paths that a window affects: each path that a notification names and
/// the filter lets pass, once, in the order of first appearance.
pub open spec fn affected(f: FilterView, events: Seq<RawEventView>) -> Seq<PathView>
    decreases events.len(),
{
    if events.len() == 0 {
        Seq::empty()
    } else {
        with_paths(affected(f, events.drop_last()), f, events.last().paths)
    }
}

/// Whether some notification of the window names `p`.
pub open spec fn names_path(events: Seq<RawEventView>, p: PathView) -> bool {
    exists|i: int| 0 <= i < events.len() && (#[trigger] events[i]).paths.contains(p)
}

/// Folds a history into its net action. Transfers that follow one another
/// collapse, and a delete discards whatever was pending before it.
pub fn fold(kinds: &Vec<EventKind>) -> (r: Intent)
    ensures
        r == net_intent(kinds@),
{
    let mut pending: Vec<Intent> = Vec::new();
    let mut last = Intent::NoOp;
    let mut i: usize = 0;
    assert(kinds@.take(0) =~= Seq::<EventKind>::empty());
    while i < kinds.len()
        invariant
            i <= kinds.len(),
            pending@.len() == 0 ==> net_intent(kinds@.take(i as int)) == Intent::NoOp,
            pending@.len() > 0 ==> pending@.last() == net_intent(kinds@.take(i as int))
                && pending@.last() != Intent::NoOp,
            last == Intent::Transfer ==> pending@.len() > 0 && pending@.last()
                == Intent::Transfer,
        decreases kinds.len() - i,
    {
        assert(kinds@.take(i + 1).drop_last() =~= kinds@.take(i as int));
        let action = kinds[i].candidate();
        match action {
            Intent::Transfer => {
                if last != Intent::Transfer {
                    pending.push(Intent::Transfer);
                }
            },
            Intent::Delete => {
                pending.clear();
                pending.push(Intent::Delete);
            },
            Intent::NoOp => {},
        }
        last = action;
        i += 1;
    }
    assert(kinds@.take(i as int) =~= kinds@);
    if pending.len() > 0 {
        pending[pending.len() - 1]
    } else {
        Intent::NoOp
    }
}

/// The kinds recorded for `path` over a window, in arrival order.
pub fn history_of(events: &Vec<RawEvent>, path: &SyncPath) -> (h: Vec<EventKind>)
    ensures
        h@ == history(events_view(events@), path@),
{
    let ghost evs = events_view(events@);
    let mut h: Vec<EventKind> = Vec::new();
    let mut i: usize = 0;
    assert(evs.take(0) =~= Seq::<RawEventView>::empty());
    while i < events.len()
        invariant
            i <= events.len(),
            evs == events_view(events@),
            h@ == history(evs.take(i as int), path@),
        decreases events.len() - i,
    {
        let event = &events[i];
        let ghost before = h@;
        let ghost paths = paths_view(event.paths@);
        let mut j: usize = 0;
        assert(paths.take(0) =~= Seq::<PathView>::empty());
        while j < event.paths.len()
            invariant
                j <= event.paths.len(),
                paths == paths_view(event.paths@),
                h@ == before + mentions(event.kind, paths.take(j as int), path@),
            decreases event.paths.len() - j,
        {
            assert(paths.take(j + 1).drop_last() =~= paths.take(j as int));
            if event.paths[j].same(path) {
                h.push(event.kind);
            }
            j += 1;
        }
        proof {
            assert(paths.take(j as int) =~= paths);
            assert(evs.take(i + 1).drop_last() =~= evs.take(i as int));
            assert(evs.take(i + 1).last() == event@);
        }
        i += 1;
    }
    assert(evs.take(i as int) =~= evs);
    h
}

fn find(paths: &Vec<SyncPath>, path: &SyncPath) -> (r: bool)
    ensures
        r == paths_view(paths@).contains(path@),
{
    let mut i: usize = 0;
    while i < paths.len()
        invariant
            i <= paths.len(),
            forall|j: int| 0 <= j < i ==> paths_view(paths@)[j] != path@,
        decreases paths.len() - i,
    {
        if paths[i].same(path) {
            assert(paths_view(paths@)[i as int] == path@);
            return true;
        }
        i += 1;
    }
    false
}

/// The paths that a window affects, in the order of first appearance.
pub fn affected_paths(filter: &PathFilter, events: &Vec<RawEvent>) -> (keys: Vec<SyncPath>)
    ensures
        paths_view(keys@) == affected(filter@, events_view(events@)),
{
    let ghost evs = events_view(events@);
    let mut keys: Vec<SyncPath> = Vec::new();
    let mut i: usize = 0;
    proof {
        assert(evs.take(0) =~= Seq::<RawEventView>::empty());
        assert(paths_view(keys@) =~= Seq::<PathView>::empty());
    }
    while i < events.len()
        invariant
            i <= events.len(),
            evs == events_view(events@),
            paths_view(keys@) == affected(filter@, evs.take(i as int)),
        decreases events.len() - i,
    {
        let event = &events[i];
        let ghost before = paths_view(keys@);
        let ghost paths = paths_view(event.paths@);
        let mut j: usize = 0;
        assert(paths.take(0) =~= Seq::<PathView>::empty());
        while j < event.paths.len()
            invariant
                j <= event.paths.len(),
                paths == paths_view(event.paths@),
                paths_view(keys@) == with_paths(before, filter@, paths.take(j as int)),
            decreases event.paths.len() - j,
        {
            assert(paths.take(j + 1).drop_last() =~= paths.take(j as int));
            let path = &event.paths[j];
            if !find(&keys, path) && !filter.is_excluded(path) {
                let ghost old_keys = paths_view(keys@);
                keys.push(path.clone_path());
                assert(paths_view(keys@) =~= old_keys.push(path@));
            }
            j += 1;
        }
        proof {
            assert(paths.take(j as int) =~= paths);
            assert(evs.take(i + 1).drop_last() =~= evs.take(i as int));
            assert(evs.take(i + 1).last() == event@);
        }
        i += 1;
    }
    assert(evs.take(i as int) =~= evs);
    keys
}

/// The pairs that a list of paths with their actions stands for.
pub open spec fn pairs_view(r: Seq<(SyncPath, Intent)>) -> Seq<(PathView, Intent)> {
    Seq::new(r.len(), |i: int| (r[i].0@, r[i].1))
}

/// What a window reduces to: the paths it affects, in the order of first
/// appearance, each with the net action of its history.
pub open spec fn reduction(f: FilterView, events: Seq<RawEventView>) -> Seq<(PathView, Intent)> {
    Seq::new(
        affected(f, events).len(),
        |i: int| (affected(f, events)[i], net_intent(history(events, affected(f, events)[i]))),
    )
}

/// Reduces a window to one net action for each path it affects.
pub fn reduce(filter: &PathFilter, events: &Vec<RawEvent>) -> (r: Vec<(SyncPath, Intent)>)
    ensures
        pairs_view(r@) == reduction(filter@, events_view(events@)),
{
    let keys = affected_paths(filter, events);
    let ghost all = paths_view(keys@);
    let mut r: Vec<(SyncPath, Intent)> = Vec::new();
    let n = keys.len();
    let mut i: usize = 0;
    while i < n
        invariant
            i <= n == keys@.len(),
            all == paths_view(keys@),
            all == affected(filter@, events_view(events@)),
            r@.len() == i,
            forall|j: int|
                0 <= j < i ==> pairs_view(r@)[j] == reduction(filter@, events_view(events@))[j],
        decreases n - i,
    {
        let key = keys[i].clone_path();
        assert(key@ == all[i as int]);
        let intent = fold(&history_of(events, &key));
        let ghost before = r@;
        r.push((key, intent));
        assert forall|j: int| 0 <= j < i + 1 implies pairs_view(r@)[j] == reduction(
            filter@,
            events_view(events@),
        )[j] by {
            if j < i {
                assert(pairs_view(before)[j] == pairs_view(r@)[j]);
            }
        }
        i += 1;
    }
    assert(pairs_view(r@) =~= reduction(filter@, events_view(events@)));
    r
}

/// The last actionable kind of a history decides its net action: a removal
/// behind every creation and modification nets as a delete, and a creation or
/// modification behind every removal nets as a transfer.
pub proof fn lemma_last_actionable_decides(h: Seq<EventKind>, i: int)
    requires
        0 <= i < h.len(),
        candidate(h[i]) != Intent::NoOp,
        forall|j: int| i < j < h.len() ==> candidate(h[j]) == Intent::NoOp,
    ensures
        net_intent(h) == candidate(h[i]),
    decreases h.len(),
{
    if i < h.len() - 1 {
        lemma_last_actionable_decides(h.drop_last(), i);
    }
}

/// A history nets as nothing exactly when none of its kinds is actionable.
pub proof fn lemma_nothing_actionable(h: Seq<EventKind>)
    ensures
        net_intent(h) == Intent::NoOp <==> forall|j: int|
            0 <= j < h.len() ==> candidate(#[trigger] h[j]) == Intent::NoOp,
    decreases h.len(),
{
    if h.len() > 0 {
        lemma_nothing_actionable(h.drop_last());
        if candidate(h.last()) == Intent::NoOp {
            assert forall|j: int| 0 <= j < h.len() && net_intent(h) == Intent::NoOp implies candidate(
                #[trigger] h[j],
            ) == Intent::NoOp by {
                if j < h.len() - 1 {
                    assert(h.drop_last()[j] == h[j]);
                }
            }
            if forall|j: int| 0 <= j < h.len() ==> candidate(#[trigger] h[j]) == Intent::NoOp {
                assert forall|j: int| 0 <= j < h.drop_last().len() implies candidate(
                    #[trigger] h.drop_last()[j],
                ) == Intent::NoOp by {
                    assert(h.drop_last()[j] == h[j]);
                }
            }
        }
    }
}

proof fn lemma_with_paths(acc: Seq<PathView>, f: FilterView, paths: Seq<PathView>, p: PathView)
    ensures
        acc.no_duplicates() ==> with_paths(acc, f, paths).no_duplicates(),
        with_paths(acc, f, paths).contains(p) <==> acc.contains(p) || (paths.contains(p)
            && !f.excludes(p)),
    decreases paths.len(),
{
    if paths.len() > 0 {
        let before = with_paths(acc, f, paths.drop_last());
        let last = paths.last();
        lemma_with_paths(acc, f, paths.drop_last(), p);
        lemma_with_paths(acc, f, paths.drop_last(), last);
        assert(paths.drop_last().contains(p) ==> paths.contains(p)) by {
            if paths.drop_last().contains(p) {
                let k = choose|k: int| 0 <= k < paths.len() - 1 && paths.drop_last()[k] == p;
                assert(paths[k] == p);
            }
        }
        assert(paths.contains(p) ==> paths.drop_last().contains(p) || p == last) by {
            if paths.contains(p) {
                let k = choose|k: int| 0 <= k < paths.len() && paths[k] == p;
                if k < paths.len() - 1 {
                    assert(paths.drop_last()[k] == p);
                }
            }
        }
        assert(paths[paths.len() - 1] == last);
        if !(before.contains(last) || f.excludes(last)) {
            let after = before.push(last);
            assert(after[after.len() - 1] == last);
            assert(before.contains(p) ==> after.contains(p)) by {
                if before.contains(p) {
                    let k = choose|k: int| 0 <= k < before.len() && before[k] == p;
                    assert(after[k] == p);
                }
            }
            if acc.no_duplicates() {
                assert forall|a: int, b: int|
                    0 <= a < after.len() && 0 <= b < after.len() && a != b implies after[a]
                    != after[b] by {
                    if a < before.len() && b < before.len() {
                        assert(before[a] != before[b]);
                    } else if a < before.len() {
                        assert(before[a] == after[a]);
                    } else {
                        assert(before[b] == after[b]);
                    }
                }
            }
        }
    }
}

/// A window affects no path twice, so no path is the subject of a transfer
/// and of a delete in one reduction; and it affects exactly the paths that
/// some notification names and the filter lets pass.
pub proof fn lemma_affected_once(f: FilterView, events: Seq<RawEventView>, p: PathView)
    ensures
        affected(f, events).no_duplicates(),
        affected(f, events).contains(p) <==> names_path(events, p) && !f.excludes(p),
    decreases events.len(),
{
    if events.len() > 0 {
        let before = events.drop_last();
        lemma_affected_once(f, before, p);
        lemma_with_paths(affected(f, before), f, events.last().paths, p);
        assert(names_path(events, p) <==> names_path(before, p) || events.last().paths.contains(
            p,
        )) by {
            if names_path(before, p) {
                let k = choose|k: int| 0 <= k < before.len() && (#[trigger] before[k]).paths.contains(p);
                assert(events[k].paths.contains(p));
            }
            if events.last().paths.contains(p) {
                assert(events[events.len() - 1].paths.contains(p));
            }
            if names_path(events, p) {
                let k = choose|k: int| 0 <= k < events.len() && (#[trigger] events[k]).paths.contains(p);
                if k < events.len() - 1 {
                    assert(before[k].paths.contains(p));
                }
            }
        }
    }
}

} // verus!

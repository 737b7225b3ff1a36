//! The fixed setting of a mirror: the two roots, the blacklist and the
//! debounce window.

use crate::filter::{FilterView, PathFilter};
use crate::path::{join_of, strip_prefix_of, PathView, SyncPath};
use vstd::prelude::*;

verus! {

/// The mathematical value of an engine's setting.
pub struct EngineView {
    pub local_root: PathView,
    pub remote_root: PathView,
    pub entries: Seq<PathView>,
    pub debounce_s: u64,
}

impl EngineView {
    /// The filter of the engine: the blacklist entries, with the local root
    /// as the root that relative entries are taken from.
    pub open spec fn filter(self) -> FilterView {
        FilterView { root: self.local_root, entries: self.entries }
    }

    /// The path of `p` relative to the local root, where `p` lies under it.
    pub open spec fn rel(self, p: PathView) -> Option<PathView> {
        strip_prefix_of(p, self.local_root)
    }

    /// The remote path that mirrors the local path `p`: the remote root with
    /// the relative path of `p` behind it.
    pub open spec fn remote_of(self, p: PathView) -> Option<PathView> {
        match self.rel(p) {
            Some(rel) => Some(join_of(self.remote_root, rel)),
            None => None,
        }
    }
}

/// The setting of a mirror. It is fixed when the engine is made and owns no
/// state that changes.
pub struct Engine {
    filter: PathFilter,
    remote_root: SyncPath,
    debounce_s: u64,
}

impl View for Engine {
    type V = EngineView;

    closed spec fn view(&self) -> EngineView {
        EngineView {
            local_root: self.filter@.root,
            remote_root: self.remote_root@,
            entries: self.filter@.entries,
            debounce_s: self.debounce_s,
        }
    }
}

impl Engine {
    /// An engine that mirrors the tree under `local_root` into
    /// `remote_root`, leaves out what `blacklist` names, and gathers
    /// notifications over windows of `debounce_s` seconds.
    pub fn new(
        local_root: SyncPath,
        remote_root: SyncPath,
        blacklist: &Vec<String>,
        debounce_s: u64,
    ) -> (e: Engine)
        ensures
            e@ == (EngineView {
                local_root: local_root@,
                remote_root: remote_root@,
                entries: crate::filter::parse_all(blacklist@),
                debounce_s,
            }),
    {
        Engine { filter: PathFilter::new(local_root, blacklist), remote_root, debounce_s }
    }

    /// The filter that decides what is left out.
    pub fn filter(&self) -> (f: &PathFilter)
        ensures
            f@ == self@.filter(),
    {
        &self.filter
    }

    /// The local root.
    pub fn local_root(&self) -> (r: &SyncPath)
        ensures
            r@ == self@.local_root,
    {
        self.filter.root()
    }

    /// The remote root.
    pub fn remote_root(&self) -> (r: &SyncPath)
        ensures
            r@ == self@.remote_root,
    {
        &self.remote_root
    }

    /// The debounce window in seconds.
    pub fn debounce_s(&self) -> (d: u64)
        ensures
            d == self@.debounce_s,
    {
        self.debounce_s
    }

    /// Whether `path` is excluded from all sync activity.
    pub fn is_blacklisted(&self, path: &SyncPath) -> (r: bool)
        ensures
            r == self@.filter().excludes(path@),
    {
        self.filter.is_excluded(path)
    }

    /// The path of `path` relative to the local root; none where `path` does
    /// not lie under the root.
    pub fn rel(&self, path: &SyncPath) -> (r: Option<SyncPath>)
        ensures
            r.is_some() == self@.rel(path@).is_some(),
            r.is_some() ==> r.unwrap()@ == self@.rel(path@).unwrap(),
    {
        path.strip_prefix(self.filter.root())
    }

    /// The remote path that mirrors `path`; none where `path` does not lie
    /// under the local root.
    pub fn remote_of(&self, path: &SyncPath) -> (r: Option<SyncPath>)
        ensures
            r.is_some() == self@.remote_of(path@).is_some(),
            r.is_some() ==> r.unwrap()@ == self@.remote_of(path@).unwrap(),
    {
        match self.rel(path) {
            Some(rel) => Some(self.remote_root.join(&rel)),
            None => None,
        }
    }
}

} // verus!

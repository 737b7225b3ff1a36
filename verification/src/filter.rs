//! The blacklist: which paths are kept out of every sync activity.

use crate::path::{file_name_of, join_of, parse_of, PathView, SyncPath};
use vstd::prelude::*;

verus! {

/// The mathematical value of a filter: the local root and the blacklist
/// entries, each read as a path.
pub struct FilterView {
    pub root: PathView,
    pub entries: Seq<PathView>,
}

impl FilterView {
    /// Whether the final component of `p` is the final component of an entry.
    pub open spec fn excludes_by_name(self, p: PathView) -> bool {
        file_name_of(p).is_some() && exists|i: int|
            0 <= i < self.entries.len() && file_name_of(#[trigger] self.entries[i])
                == file_name_of(p)
    }

    /// Whether `p` lies at or below an entry, taken as it is written or taken
    /// relative to the root.
    pub open spec fn excludes_by_prefix(self, p: PathView) -> bool {
        exists|i: int|
            0 <= i < self.entries.len() && ((#[trigger] self.entries[i]).is_prefix_of(p)
                || join_of(self.root, self.entries[i]).is_prefix_of(p))
    }

    /// Whether `p` is excluded from sync.
    pub open spec fn excludes(self, p: PathView) -> bool {
        self.excludes_by_name(p) || self.excludes_by_prefix(p)
    }
}

/// The paths that a list of strings denotes.
pub open spec fn parse_all(list: Seq<String>) -> Seq<PathView> {
    Seq::new(list.len(), |i: int| parse_of(list[i]@))
}

/// Decides whether a path is excluded from all sync activity.
pub struct PathFilter {
    root: SyncPath,
    entries: Vec<SyncPath>,
    names: Vec<Option<String>>,
}

impl View for PathFilter {
    type V = FilterView;

    closed spec fn view(&self) -> FilterView {
        FilterView {
            root: self.root@,
            entries: Seq::new(self.entries@.len(), |i: int| self.entries@[i]@),
        }
    }
}

impl PathFilter {
    #[verifier::type_invariant]
    spec fn names_match(&self) -> bool {
        &&& self.names@.len() == self.entries@.len()
        &&& forall|i: int|
            0 <= i < self.entries@.len() ==> {
                let name = #[trigger] self.names@[i];
                let of = file_name_of(self.entries@[i]@);
                &&& name.is_some() == of.is_some()
                &&& name.is_some() ==> name.unwrap()@ == of.unwrap()
            }
    }

    /// A filter for the tree under `root` with the given blacklist entries.
    pub fn new(root: SyncPath, blacklist: &Vec<String>) -> (f: PathFilter)
        ensures
            f@.root == root@,
            f@.entries == parse_all(blacklist@),
    {
        let mut entries: Vec<SyncPath> = Vec::new();
        let mut names: Vec<Option<String>> = Vec::new();
        let mut i: usize = 0;
        while i < blacklist.len()
            invariant
                i <= blacklist.len(),
                entries@.len() == i,
                names@.len() == i,
                forall|j: int| 0 <= j < i ==> (#[trigger] entries@[j])@ == parse_of(blacklist@[j]@),
                forall|j: int|
                    0 <= j < i ==> {
                        let name = #[trigger] names@[j];
                        let of = file_name_of(entries@[j]@);
                        &&& name.is_some() == of.is_some()
                        &&& name.is_some() ==> name.unwrap()@ == of.unwrap()
                    },
            decreases blacklist.len() - i,
        {
            let entry = SyncPath::parse(blacklist[i].as_str());
            names.push(entry.file_name());
            entries.push(entry);
            i += 1;
        }
        let f = PathFilter { root, entries, names };
        assert(f@.entries =~= parse_all(blacklist@));
        f
    }

    /// The root that relative entries are taken from.
    pub fn root(&self) -> (r: &SyncPath)
        ensures
            r@ == self@.root,
    {
        &self.root
    }

    /// Whether `path` is excluded from sync.
    pub fn is_excluded(&self, path: &SyncPath) -> (r: bool)
        ensures
            r == self@.excludes(path@),
    {
        proof {
            use_type_invariant(self);
        }
        let n = self.entries.len();
        if let Some(name) = path.file_name() {
            let mut i: usize = 0;
            while i < n
                invariant
                    i <= n == self.entries@.len() == self.names@.len(),
                    self.names_match(),
                    file_name_of(path@) == Some(name@),
                    forall|j: int|
                        0 <= j < i ==> file_name_of(#[trigger] self@.entries[j]) != file_name_of(
                            path@,
                        ),
                decreases n - i,
            {
                if let Some(own) = &self.names[i] {
                    if *own == name {
                        assert(file_name_of(self@.entries[i as int]) == file_name_of(path@));
                        return true;
                    }
                }
                assert(file_name_of(self@.entries[i as int]) != file_name_of(path@));
                i += 1;
            }
        }
        assert(!self@.excludes_by_name(path@));
        let mut i: usize = 0;
        while i < n
            invariant
                i <= n == self.entries@.len(),
                forall|j: int|
                    0 <= j < i ==> !(#[trigger] self@.entries[j]).is_prefix_of(path@) && !join_of(
                        self@.root,
                        self@.entries[j],
                    ).is_prefix_of(path@),
            decreases n - i,
        {
            let entry = &self.entries[i];
            assert(self@.entries[i as int] == entry@);
            if path.starts_with(entry) || path.starts_with(&self.root.join(entry)) {
                return true;
            }
            i += 1;
        }
        false
    }
}

} // verus!

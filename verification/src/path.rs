//! POSIX paths as sequences of components.
//!
//! A path is held as the list of its components: the root `/` first if the
//! path is absolute, then one entry per name. Empty segments and `.` segments
//! are dropped when a string is read, except a `.` that opens a relative path;
//! `..` is kept as a component of its own. Prefix tests, joins and relative
//! paths are then plain operations on that list, so `/r/build` is a prefix of
//! `/r/build/out.o` but not of `/r/builder`.

use vstd::prelude::*;
use vstd::string::*;

verus! {

/// The mathematical value of a path: its components in order.
pub type PathView = Seq<Seq<char>>;

/// The component that stands for the root directory.
pub open spec fn root_part() -> Seq<char> {
    seq!['/']
}

/// The component that stands for the current directory.
pub open spec fn cur_part() -> Seq<char> {
    seq!['.']
}

/// The component that stands for the parent directory.
pub open spec fn up_part() -> Seq<char> {
    seq!['.', '.']
}

/// Whether a component is an ordinary name, not `/`, `.` or `..`.
pub open spec fn is_name(part: Seq<char>) -> bool {
    part != root_part() && part != cur_part() && part != up_part()
}

/// Whether the path begins at the root.
pub open spec fn is_absolute(p: PathView) -> bool {
    p.len() > 0 && p[0] == root_part()
}

/// The final component, where it is an ordinary name.
pub open spec fn file_name_of(p: PathView) -> Option<Seq<char>> {
    if p.len() > 0 && is_name(p.last()) {
        Some(p.last())
    } else {
        None
    }
}

/// The path without its final component; a path that is empty or ends in the
/// root has none.
pub open spec fn parent_of(p: PathView) -> Option<PathView> {
    if p.len() == 0 || p.last() == root_part() {
        None
    } else {
        Some(p.drop_last())
    }
}

/// `other` appended to `base`: an absolute `other` replaces `base`, and a `.`
/// that opens `other` disappears behind a non-empty `base`.
pub open spec fn join_of(base: PathView, other: PathView) -> PathView {
    if is_absolute(other) || base.len() == 0 {
        other
    } else if other.len() > 0 && other[0] == cur_part() {
        base + other.skip(1)
    } else {
        base + other
    }
}

/// What is left of `p` behind `base`, where `base` is a prefix of `p`.
pub open spec fn strip_prefix_of(p: PathView, base: PathView) -> Option<PathView> {
    if base.is_prefix_of(p) {
        Some(p.skip(base.len() as int))
    } else {
        None
    }
}

/// The segments that the separators `/` cut `s` into; there is always at
/// least one, and a segment may be empty.
pub open spec fn segments(s: Seq<char>) -> Seq<Seq<char>>
    decreases s.len(),
{
    if s.len() == 0 {
        seq![Seq::<char>::empty()]
    } else {
        let before = segments(s.drop_last());
        if s.last() == '/' {
            before.push(Seq::<char>::empty())
        } else {
            before.drop_last().push(before.last().push(s.last()))
        }
    }
}

/// Whether a segment becomes a component: it is neither empty nor `.`.
pub open spec fn keeps(seg: Seq<char>) -> bool {
    seg.len() > 0 && seg != cur_part()
}

/// The segments that become components, in order.
pub open spec fn kept(segs: Seq<Seq<char>>) -> Seq<Seq<char>> {
    segs.filter(|seg: Seq<char>| keeps(seg))
}

/// The path that a string denotes: the root if the string opens with `/`, or
/// `.` if its first segment is `.`, then every segment that is neither empty
/// nor `.`.
pub open spec fn parse_of(s: Seq<char>) -> PathView {
    let segs = segments(s);
    let head = if s.len() > 0 && s[0] == '/' {
        seq![root_part()]
    } else if segs[0] == cur_part() {
        seq![cur_part()]
    } else {
        Seq::<Seq<char>>::empty()
    };
    head + kept(segs)
}

/// The string that denotes a path: its components with `/` between them, and
/// none behind the root.
pub open spec fn display_of(p: PathView) -> Seq<char>
    decreases p.len(),
{
    if p.len() == 0 {
        Seq::<char>::empty()
    } else if p.len() == 1 {
        p[0]
    } else if p[p.len() - 2] == root_part() {
        display_of(p.drop_last()) + p.last()
    } else {
        display_of(p.drop_last()) + seq!['/'] + p.last()
    }
}

/// The components that a list of strings stands for.
pub open spec fn parts_view(parts: Seq<String>) -> PathView {
    Seq::new(parts.len(), |i: int| parts[i]@)
}

proof fn lemma_parts_view_push(parts: Seq<String>, s: String)
    ensures
        parts_view(parts.push(s)) == parts_view(parts).push(s@),
{
    assert(parts_view(parts.push(s)) =~= parts_view(parts).push(s@));
}

proof fn lemma_parts_view_front(parts: Seq<String>, s: String)
    ensures
        parts_view(parts.insert(0, s)) == seq![s@] + parts_view(parts),
{
    let a = parts_view(parts.insert(0, s));
    let b = seq![s@] + parts_view(parts);
    assert forall|j: int| 0 <= j < a.len() implies a[j] == b[j] by {
        if j > 0 {
            assert(parts_view(parts)[j - 1] == parts[j - 1]@);
        }
    }
    assert(a =~= b);
}

proof fn lemma_kept_push(segs: Seq<Seq<char>>, seg: Seq<char>)
    ensures
        kept(segs.push(seg)) == if keeps(seg) {
            kept(segs).push(seg)
        } else {
            kept(segs)
        },
{
    segs.lemma_filter_push(seg, |seg: Seq<char>| keeps(seg));
}

/// A path, held as its components.
#[derive(Debug)]
pub struct SyncPath {
    parts: Vec<String>,
}

impl View for SyncPath {
    type V = PathView;

    closed spec fn view(&self) -> PathView {
        parts_view(self.parts@)
    }
}

fn is_root_part(s: &String) -> (r: bool)
    ensures
        r == (s@ == root_part()),
{
    let t = s.as_str();
    let r = t.unicode_len() == 1 && t.get_char(0) == '/';
    proof {
        if r {
            assert(s@ =~= root_part());
        }
    }
    r
}

fn is_cur_part(s: &String) -> (r: bool)
    ensures
        r == (s@ == cur_part()),
{
    let t = s.as_str();
    let r = t.unicode_len() == 1 && t.get_char(0) == '.';
    proof {
        if r {
            assert(s@ =~= cur_part());
        }
    }
    r
}

fn is_up_part(s: &String) -> (r: bool)
    ensures
        r == (s@ == up_part()),
{
    let t = s.as_str();
    let r = t.unicode_len() == 2 && t.get_char(0) == '.' && t.get_char(1) == '.';
    proof {
        if r {
            assert(s@ =~= up_part());
        }
    }
    r
}

impl SyncPath {
    /// Reads a path from its string.
    pub fn parse(s: &str) -> (p: SyncPath)
        ensures
            p@ == parse_of(s@),
    {
        let n = s.unicode_len();
        let absolute = n > 0 && s.get_char(0) == '/';
        let mut parts: Vec<String> = Vec::new();
        let mut lead_dot = false;
        let mut start: usize = 0;
        let mut i: usize = 0;
        let ghost mut done: Seq<Seq<char>> = Seq::empty();
        proof {
            assert(s@.take(0) =~= Seq::<char>::empty());
            assert(s@.subrange(0, 0) =~= Seq::<char>::empty());
            assert(segments(s@.take(0)) =~= done.push(s@.subrange(0, 0)));
            assert(kept(done) =~= Seq::<Seq<char>>::empty());
        }
        while i < n
            invariant
                start <= i <= n == s@.len(),
                (start == 0) == (done.len() == 0),
                segments(s@.take(i as int)) == done.push(s@.subrange(start as int, i as int)),
                parts_view(parts@) == kept(done),
                done.len() > 0 ==> lead_dot == (done[0] == cur_part()),
            decreases n - i,
        {
            let ghost cur = s@.subrange(start as int, i as int);
            proof {
                assert(s@.take(i + 1).drop_last() =~= s@.take(i as int));
                assert(s@.take(i + 1).last() == s@[i as int]);
            }
            if s.get_char(i) == '/' {
                let seg = String::from_str(s.substring_char(start, i));
                if start == 0 {
                    lead_dot = is_cur_part(&seg);
                }
                proof {
                    lemma_kept_push(done, cur);
                    lemma_parts_view_push(parts@, seg);
                    done = done.push(cur);
                    assert(s@.subrange(i + 1, i + 1) =~= Seq::<char>::empty());
                }
                if seg.as_str().unicode_len() > 0 && !is_cur_part(&seg) {
                    parts.push(seg);
                }
                start = i + 1;
            } else {
                proof {
                    assert(done.push(cur).drop_last() =~= done);
                    assert(cur.push(s@[i as int]) =~= s@.subrange(start as int, i + 1));
                }
            }
            i += 1;
        }
        let seg = String::from_str(s.substring_char(start, n));
        if start == 0 {
            lead_dot = is_cur_part(&seg);
        }
        proof {
            assert(s@.take(n as int) =~= s@);
            lemma_kept_push(done, seg@);
            lemma_parts_view_push(parts@, seg);
        }
        if seg.as_str().unicode_len() > 0 && !is_cur_part(&seg) {
            parts.push(seg);
        }
        if absolute {
            let root = String::from_str("/");
            proof {
                reveal_strlit("/");
                assert(root@ =~= root_part());
                lemma_parts_view_front(parts@, root);
            }
            parts.insert(0, root);
        } else if lead_dot {
            let dot = String::from_str(".");
            proof {
                reveal_strlit(".");
                assert(dot@ =~= cur_part());
                lemma_parts_view_front(parts@, dot);
            }
            parts.insert(0, dot);
        } else {
            assert(parts_view(parts@) =~= Seq::<Seq<char>>::empty() + parts_view(parts@));
        }
        SyncPath { parts }
    }

    /// Writes the path as a string.
    pub fn to_string(&self) -> (s: String)
        ensures
            s@ == display_of(self@),
    {
        let mut out = String::new();
        let mut i: usize = 0;
        while i < self.parts.len()
            invariant
                i <= self.parts.len(),
                out@ == display_of(self@.take(i as int)),
            decreases self.parts.len() - i,
        {
            proof {
                reveal_strlit("/");
                assert(self@.take(i + 1).drop_last() =~= self@.take(i as int));
            }
            if i > 0 && !is_root_part(&self.parts[i - 1]) {
                out.append("/");
            }
            out.append(self.parts[i].as_str());
            i += 1;
        }
        assert(self@.take(i as int) =~= self@);
        out
    }
    /// The empty path.
    pub fn empty() -> (p: SyncPath)
        ensures
            p@ == Seq::<Seq<char>>::empty(),
    {
        let p = SyncPath { parts: Vec::new() };
        assert(p@ =~= Seq::<Seq<char>>::empty());
        p
    }

    /// The number of components.
    pub fn len(&self) -> (n: usize)
        ensures
            n == self@.len(),
    {
        self.parts.len()
    }

    /// Whether the path begins at the root.
    pub fn is_absolute(&self) -> (r: bool)
        ensures
            r == is_absolute(self@),
    {
        self.parts.len() > 0 && is_root_part(&self.parts[0])
    }

    /// The component at `i`.
    pub fn part(&self, i: usize) -> (s: &String)
        requires
            i < self@.len(),
        ensures
            s@ == self@[i as int],
    {
        &self.parts[i]
    }

    /// The path made of the first `n` components.
    pub fn take(&self, n: usize) -> (p: SyncPath)
        requires
            n <= self@.len(),
        ensures
            p@ == self@.take(n as int),
    {
        let mut parts: Vec<String> = Vec::new();
        let mut i: usize = 0;
        while i < n
            invariant
                i <= n <= self.parts.len(),
                parts_view(parts@) == self@.take(i as int),
            decreases n - i,
        {
            proof {
                lemma_parts_view_push(parts@, self.parts@[i as int]);
            }
            parts.push(self.parts[i].clone());
            i += 1;
            assert(parts_view(parts@) =~= self@.take(i as int));
        }
        SyncPath { parts }
    }

    /// The path made of the components from `n` on.
    pub fn skip(&self, n: usize) -> (p: SyncPath)
        requires
            n <= self@.len(),
        ensures
            p@ == self@.skip(n as int),
    {
        let mut parts: Vec<String> = Vec::new();
        let mut i: usize = n;
        while i < self.parts.len()
            invariant
                n <= i <= self.parts.len(),
                parts_view(parts@) == self@.subrange(n as int, i as int),
            decreases self.parts.len() - i,
        {
            proof {
                lemma_parts_view_push(parts@, self.parts@[i as int]);
            }
            parts.push(self.parts[i].clone());
            i += 1;
            assert(parts_view(parts@) =~= self@.subrange(n as int, i as int));
        }
        SyncPath { parts }
    }

    /// A copy of the path.
    pub fn clone_path(&self) -> (p: SyncPath)
        ensures
            p@ == self@,
    {
        let p = self.take(self.parts.len());
        assert(p@ =~= self@);
        p
    }

    /// Whether both paths have the same components.
    pub fn same(&self, other: &SyncPath) -> (r: bool)
        ensures
            r == (self@ == other@),
    {
        let r = self.parts.len() == other.parts.len() && self.starts_with(other);
        proof {
            if r {
                assert(self@ =~= other@);
            }
            if self@ == other@ {
                assert(other@ =~= self@.subrange(0, other@.len() as int));
            }
        }
        r
    }

    /// Whether `base` is a prefix of this path, component by component.
    pub fn starts_with(&self, base: &SyncPath) -> (r: bool)
        ensures
            r == base@.is_prefix_of(self@),
    {
        if base.parts.len() > self.parts.len() {
            return false;
        }
        let mut i: usize = 0;
        while i < base.parts.len()
            invariant
                i <= base.parts.len() <= self.parts.len(),
                forall|j: int| 0 <= j < i ==> base@[j] == self@[j],
            decreases base.parts.len() - i,
        {
            if self.parts[i] != base.parts[i] {
                assert(base@[i as int] != self@[i as int]);
                return false;
            }
            i += 1;
        }
        assert(base@ =~= self@.subrange(0, base@.len() as int));
        true
    }

    /// The final component, where it is an ordinary name.
    pub fn file_name(&self) -> (r: Option<String>)
        ensures
            r.is_some() == file_name_of(self@).is_some(),
            r.is_some() ==> r.unwrap()@ == file_name_of(self@).unwrap(),
    {
        let n = self.parts.len();
        if n == 0 {
            return None;
        }
        let last = &self.parts[n - 1];
        if is_root_part(last) || is_cur_part(last) || is_up_part(last) {
            None
        } else {
            Some(last.clone())
        }
    }

    /// Whether the final component is `..`.
    pub fn ends_in_up(&self) -> (r: bool)
        ensures
            r == (self@.len() > 0 && self@.last() == up_part()),
    {
        let n = self.parts.len();
        n > 0 && is_up_part(&self.parts[n - 1])
    }

    /// The path without its final component, if it has one to give up.
    pub fn parent(&self) -> (r: Option<SyncPath>)
        ensures
            r.is_some() == parent_of(self@).is_some(),
            r.is_some() ==> r.unwrap()@ == parent_of(self@).unwrap(),
    {
        let n = self.parts.len();
        if n == 0 || is_root_part(&self.parts[n - 1]) {
            None
        } else {
            Some(self.take(n - 1))
        }
    }

    /// `other` appended to this path.
    pub fn join(&self, other: &SyncPath) -> (p: SyncPath)
        ensures
            p@ == join_of(self@, other@),
    {
        if other.is_absolute() || self.parts.len() == 0 {
            return other.clone_path();
        }
        let from: usize = if other.parts.len() > 0 && is_cur_part(&other.parts[0]) {
            1
        } else {
            0
        };
        let mut parts: Vec<String> = self.clone_path().parts;
        let mut i: usize = from;
        while i < other.parts.len()
            invariant
                from <= i <= other.parts.len(),
                parts_view(parts@) == self@ + other@.subrange(
                    from as int,
                    i as int,
                ),
            decreases other.parts.len() - i,
        {
            proof {
                lemma_parts_view_push(parts@, other.parts@[i as int]);
            }
            parts.push(other.parts[i].clone());
            i += 1;
            assert(parts_view(parts@) =~= self@ + other@.subrange(
                from as int,
                i as int,
            ));
        }
        let p = SyncPath { parts };
        assert(p@ =~= join_of(self@, other@));
        p
    }

    /// What is left of this path behind `base`, where `base` is a prefix of it.
    pub fn strip_prefix(&self, base: &SyncPath) -> (r: Option<SyncPath>)
        ensures
            r.is_some() == strip_prefix_of(self@, base@).is_some(),
            r.is_some() ==> r.unwrap()@ == strip_prefix_of(self@, base@).unwrap(),
    {
        if self.starts_with(base) {
            Some(self.skip(base.parts.len()))
        } else {
            None
        }
    }
}

} // verus!

use rmote::coalesce::{reduce, RawEvent};
use rmote::engine::Engine;
use rmote::intent::{EventKind, Intent};
use rmote::ops::RemoteTree;
use rmote::path::SyncPath;
use rmote::remote::{
    EntryKind, LocalEntry, LocalMeta, RemoteEntry, RemoteStat, Reply, Request, SyncError,
};
use rmote::worker::{Step, Worker};
use std::collections::BTreeMap;

const DIR: u32 = 0o040000;
const FILE: u32 = 0o100000;

#[derive(Clone, Debug, PartialEq)]
enum Node {
    Dir(u32),
    File(Vec<u8>, u32),
}

#[derive(Clone, Debug, PartialEq)]
enum Local {
    Dir(u32),
    File(Vec<u8>, u32),
    Link,
}

struct World {
    local: BTreeMap<String, Local>,
    remote: BTreeMap<String, Node>,
    log: Vec<String>,
    deny_mkdir: Vec<String>,
    deny_setmode: bool,
    unreadable: Vec<String>,
}

fn p(s: &str) -> SyncPath {
    SyncPath::parse(s)
}

fn parent(path: &SyncPath) -> Option<String> {
    path.parent().map(|q| q.to_string())
}

impl World {
    fn new() -> World {
        World {
            local: BTreeMap::new(),
            remote: BTreeMap::new(),
            log: Vec::new(),
            deny_mkdir: Vec::new(),
            deny_setmode: false,
            unreadable: Vec::new(),
        }
    }

    fn has_parent(&self, path: &SyncPath) -> bool {
        match parent(path) {
            None => false,
            Some(q) => q.is_empty() || matches!(self.remote.get(&q), Some(Node::Dir(_))),
        }
    }

    fn children(&self, dir: &SyncPath) -> Vec<String> {
        self.remote
            .keys()
            .filter(|k| parent(&p(k)).as_deref() == Some(dir.to_string().as_str()))
            .cloned()
            .collect()
    }

    fn perform(&mut self, request: &Request) -> Reply {
        match request {
            Request::Mkdir { path, mode } => {
                let key = path.to_string();
                self.log.push(format!("mkdir {} {:o}", key, mode));
                if self.deny_mkdir.contains(&key)
                    || self.remote.contains_key(&key)
                    || !self.has_parent(path)
                {
                    return Reply::Failed;
                }
                self.remote.insert(key, Node::Dir(*mode));
                Reply::Done
            }
            Request::Stat { path } => {
                self.log.push(format!("stat {}", path.to_string()));
                match self.remote.get(&path.to_string()) {
                    Some(Node::Dir(mode)) => Reply::RemoteStat(RemoteStat { perm: Some(DIR | mode) }),
                    Some(Node::File(_, mode)) => {
                        Reply::RemoteStat(RemoteStat { perm: Some(FILE | mode) })
                    }
                    None => Reply::Failed,
                }
            }
            Request::Unlink { path } => {
                let key = path.to_string();
                self.log.push(format!("unlink {}", key));
                if let Some(Node::File(..)) = self.remote.get(&key) {
                    self.remote.remove(&key);
                    Reply::Done
                } else {
                    Reply::Failed
                }
            }
            Request::Rmdir { path } => {
                let key = path.to_string();
                self.log.push(format!("rmdir {}", key));
                if matches!(self.remote.get(&key), Some(Node::Dir(_)))
                    && self.children(path).is_empty()
                {
                    self.remote.remove(&key);
                    Reply::Done
                } else {
                    Reply::Failed
                }
            }
            Request::ReadRemoteDir { path } => {
                let key = path.to_string();
                self.log.push(format!("readdir {}", key));
                if !matches!(self.remote.get(&key), Some(Node::Dir(_))) {
                    return Reply::Failed;
                }
                let entries = self
                    .children(path)
                    .iter()
                    .map(|k| RemoteEntry {
                        path: p(k),
                        stat: RemoteStat {
                            perm: Some(match &self.remote[k] {
                                Node::Dir(mode) => DIR | mode,
                                Node::File(_, mode) => FILE | mode,
                            }),
                        },
                    })
                    .collect();
                Reply::RemoteListing(entries)
            }
            Request::Upload { local, remote } => {
                let key = remote.to_string();
                self.log.push(format!("upload {} {}", local.to_string(), key));
                let bytes = match self.local.get(&local.to_string()) {
                    Some(Local::File(bytes, _)) => bytes.clone(),
                    _ => return Reply::Failed,
                };
                if !self.has_parent(remote) || matches!(self.remote.get(&key), Some(Node::Dir(_))) {
                    return Reply::Failed;
                }
                let mode = match self.remote.get(&key) {
                    Some(Node::File(_, mode)) => *mode,
                    _ => 0o644,
                };
                self.remote.insert(key, Node::File(bytes, mode));
                Reply::Done
            }
            Request::SetMode { path, mode } => {
                let key = path.to_string();
                self.log.push(format!("setmode {} {:o}", key, mode));
                if self.deny_setmode {
                    return Reply::Failed;
                }
                match self.remote.get_mut(&key) {
                    Some(Node::File(_, m)) | Some(Node::Dir(m)) => {
                        *m = *mode;
                        Reply::Done
                    }
                    None => Reply::Failed,
                }
            }
            Request::LocalStat { path } => match self.local.get(&path.to_string()) {
                Some(node) => Reply::LocalMeta(meta_of(node)),
                None => Reply::Failed,
            },
            Request::ReadLocalDir { path } => {
                let key = path.to_string();
                if !matches!(self.local.get(&key), Some(Local::Dir(_))) {
                    return Reply::Failed;
                }
                let entries = self
                    .local
                    .iter()
                    .filter(|(k, _)| parent(&p(k)).as_deref() == Some(key.as_str()))
                    .map(|(k, node)| LocalEntry {
                        path: p(k),
                        meta: if self.unreadable.contains(k) { None } else { Some(meta_of(node)) },
                    })
                    .collect();
                Reply::LocalListing { entries, complete: true }
            }
        }
    }

    fn run(&mut self, engine: &Engine, mut worker: Worker) -> Result<(), SyncError> {
        let mut reply = Reply::Done;
        for _ in 0..10_000 {
            match worker.step(engine, reply) {
                Step::Finished(result) => {
                    assert!(worker.is_idle());
                    return result;
                }
                Step::Ask(request) => reply = self.perform(&request),
            }
        }
        panic!("the worker did not finish");
    }
}

fn meta_of(node: &Local) -> LocalMeta {
    match node {
        Local::Dir(mode) => LocalMeta { kind: EntryKind::Dir, mode: 0o040000 | mode },
        Local::File(_, mode) => LocalMeta { kind: EntryKind::File, mode: 0o100000 | mode },
        Local::Link => LocalMeta { kind: EntryKind::Other, mode: 0o120777 },
    }
}

fn engine(blacklist: &[&str]) -> Engine {
    let list: Vec<String> = blacklist.iter().map(|s| s.to_string()).collect();
    Engine::new(p("/l"), p("/m"), &list, 1)
}

fn world() -> World {
    let mut w = World::new();
    w.local.insert("/l".into(), Local::Dir(0o755));
    w.remote.insert("/".into(), Node::Dir(0o755));
    w.remote.insert("/m".into(), Node::Dir(0o755));
    w
}

#[test]
fn stat_tells_directories_from_files() {
    assert!(RemoteStat { perm: Some(0o040755) }.is_dir());
    assert!(!RemoteStat { perm: Some(0o100644) }.is_dir());
    assert!(!RemoteStat { perm: Some(0o120777) }.is_dir());
    assert!(!RemoteStat { perm: Some(0o755) }.is_dir());
    assert!(!RemoteStat { perm: None }.is_dir());
    assert!(Reply::RemoteStat(RemoteStat { perm: Some(0o040700) }).is_dir());
    assert!(Reply::RemoteStat(RemoteStat { perm: Some(0o100600) }).is_present());
    assert!(!Reply::RemoteStat(RemoteStat { perm: Some(0o100600) }).is_dir());
    assert!(!Reply::Failed.is_present());
    assert!(!Reply::Failed.is_dir());
}

#[test]
fn ensure_dir_creates_each_missing_prefix() {
    let mut w = World::new();
    w.remote.insert("/".into(), Node::Dir(0o755));
    let e = engine(&[]);
    assert!(w.run(&e, RemoteTree::ensure_dir(&p("/a/b/c"), 0o750)).is_ok());
    assert_eq!(w.remote.get("/a"), Some(&Node::Dir(0o750)));
    assert_eq!(w.remote.get("/a/b"), Some(&Node::Dir(0o750)));
    assert_eq!(w.remote.get("/a/b/c"), Some(&Node::Dir(0o750)));
    assert_eq!(
        w.log,
        vec!["mkdir / 750", "stat /", "mkdir /a 750", "mkdir /a/b 750", "mkdir /a/b/c 750"]
    );
}

#[test]
fn ensure_dir_accepts_what_is_already_there() {
    let mut w = world();
    let e = engine(&[]);
    assert!(w.run(&e, RemoteTree::ensure_dir(&p("/m"), 0o700)).is_ok());
    assert_eq!(w.remote.get("/m"), Some(&Node::Dir(0o755)));
    assert!(w.run(&e, e.ensure_remote_root()).is_ok());
    assert_eq!(w.remote.len(), 2);
}

#[test]
fn ensure_dir_of_the_empty_path_does_nothing() {
    let mut w = World::new();
    assert!(w.run(&engine(&[]), RemoteTree::ensure_dir(&p(""), 0o755)).is_ok());
    assert!(w.log.is_empty());
}

#[test]
fn ensure_dir_fails_at_the_prefix_that_cannot_be_made() {
    let mut w = world();
    w.deny_mkdir.push("/m/a/b".into());
    let e = engine(&[]);
    match w.run(&e, RemoteTree::ensure_dir(&p("/m/a/b/c"), 0o755)) {
        Err(SyncError::CreateDir { path }) => assert_eq!(path.to_string(), "/m/a/b"),
        other => panic!("unexpected {:?}", other),
    }
    assert!(w.remote.contains_key("/m/a"));
    assert!(!w.remote.contains_key("/m/a/b"));
    assert!(!w.log.iter().any(|l| l.contains("/m/a/b/c")));
}

#[test]
fn upload_writes_bytes_and_mode() {
    let mut w = world();
    w.local.insert("/l/a.txt".into(), Local::File(b"hi".to_vec(), 0o644));
    let e = engine(&[]);
    assert!(w.run(&e, RemoteTree::upload(&p("/l/a.txt"), &p("/m/a.txt"), 0o600)).is_ok());
    assert_eq!(w.remote.get("/m/a.txt"), Some(&Node::File(b"hi".to_vec(), 0o600)));
}

#[test]
fn upload_survives_a_failed_mode_change() {
    let mut w = world();
    w.deny_setmode = true;
    w.local.insert("/l/a.txt".into(), Local::File(b"hi".to_vec(), 0o600));
    let e = engine(&[]);
    assert!(w.run(&e, RemoteTree::upload(&p("/l/a.txt"), &p("/m/a.txt"), 0o600)).is_ok());
    assert_eq!(w.remote.get("/m/a.txt"), Some(&Node::File(b"hi".to_vec(), 0o644)));
}

#[test]
fn upload_fails_where_the_bytes_cannot_be_written() {
    let mut w = world();
    w.local.insert("/l/a.txt".into(), Local::File(b"hi".to_vec(), 0o600));
    let e = engine(&[]);
    match w.run(&e, RemoteTree::upload(&p("/l/a.txt"), &p("/m/none/a.txt"), 0o600)) {
        Err(SyncError::Upload { path }) => assert_eq!(path.to_string(), "/m/none/a.txt"),
        other => panic!("unexpected {:?}", other),
    }
    assert!(!w.log.iter().any(|l| l.starts_with("setmode")));
}

#[test]
fn remove_unlinks_a_file() {
    let mut w = world();
    w.remote.insert("/m/f".into(), Node::File(vec![1], 0o644));
    assert!(w.run(&engine(&[]), RemoteTree::remove(&p("/m/f"))).is_ok());
    assert!(!w.remote.contains_key("/m/f"));
    assert_eq!(w.log, vec!["unlink /m/f"]);
}

#[test]
fn remove_leaves_no_trace_of_a_directory_tree() {
    let mut w = world();
    w.remote.insert("/m/keep".into(), Node::File(vec![], 0o644));
    w.remote.insert("/m/d".into(), Node::Dir(0o755));
    w.remote.insert("/m/d/f1".into(), Node::File(vec![1], 0o644));
    w.remote.insert("/m/d/sub".into(), Node::Dir(0o755));
    w.remote.insert("/m/d/sub/f2".into(), Node::File(vec![2], 0o644));
    w.remote.insert("/m/d/sub/deep".into(), Node::Dir(0o755));
    w.remote.insert("/m/d/sub/deep/f3".into(), Node::File(vec![3], 0o644));
    w.remote.insert("/m/d/z".into(), Node::Dir(0o755));
    assert!(w.run(&engine(&[]), RemoteTree::remove(&p("/m/d"))).is_ok());
    assert!(!w.remote.keys().any(|k| k.starts_with("/m/d")));
    assert!(w.remote.contains_key("/m/keep"));
    assert_eq!(w.remote.len(), 3);
    let rmdir_top = w.log.iter().position(|l| l == "rmdir /m/d").unwrap();
    assert_eq!(rmdir_top, w.log.len() - 1);
    let f3 = w.log.iter().position(|l| l == "unlink /m/d/sub/deep/f3").unwrap();
    let deep = w.log.iter().position(|l| l == "rmdir /m/d/sub/deep").unwrap();
    let sub = w.log.iter().position(|l| l == "rmdir /m/d/sub").unwrap();
    assert!(f3 < deep && deep < sub && sub < rmdir_top);
}

#[test]
fn remove_of_an_absent_path_succeeds_and_changes_nothing() {
    let mut w = world();
    let before = w.remote.clone();
    assert!(w.run(&engine(&[]), RemoteTree::remove(&p("/m/gone"))).is_ok());
    assert!(w.run(&engine(&[]), RemoteTree::remove(&p("/m/gone"))).is_ok());
    assert_eq!(w.remote, before);
    assert_eq!(w.log, vec!["unlink /m/gone", "stat /m/gone", "unlink /m/gone", "stat /m/gone"]);
}

#[test]
fn delete_twice_succeeds_both_times() {
    let mut w = world();
    w.remote.insert("/m/f".into(), Node::File(vec![1], 0o644));
    let e = engine(&[]);
    assert!(w.run(&e, e.apply(&p("/l/f"), Intent::Delete)).is_ok());
    assert!(!w.remote.contains_key("/m/f"));
    let after_first = w.remote.clone();
    assert!(w.run(&e, e.apply(&p("/l/f"), Intent::Delete)).is_ok());
    assert_eq!(w.remote, after_first);
}

#[test]
fn delete_skips_paths_outside_the_root_and_excluded_paths() {
    let mut w = world();
    let e = engine(&["target"]);
    assert!(w.run(&e, e.delete_element(&p("/elsewhere/f"))).is_ok());
    assert!(w.run(&e, e.delete_element(&p("/l/target/x"))).is_ok());
    assert!(w.log.is_empty());
}

#[test]
fn transfer_twice_leaves_the_same_remote_file() {
    let mut w = world();
    w.local.insert("/l/sub".into(), Local::Dir(0o755));
    w.local.insert("/l/sub/a.txt".into(), Local::File(b"hello".to_vec(), 0o640));
    let e = engine(&[]);
    assert!(w.run(&e, e.apply(&p("/l/sub/a.txt"), Intent::Transfer)).is_ok());
    let after_first = w.remote.clone();
    assert_eq!(after_first.get("/m/sub/a.txt"), Some(&Node::File(b"hello".to_vec(), 0o640)));
    assert_eq!(after_first.get("/m/sub"), Some(&Node::Dir(0o755)));
    assert!(w.run(&e, e.apply(&p("/l/sub/a.txt"), Intent::Transfer)).is_ok());
    assert_eq!(w.remote, after_first);
}

#[test]
fn transfer_of_a_directory_uses_its_permission_bits() {
    let mut w = world();
    w.local.insert("/l/d".into(), Local::Dir(0o2750));
    let e = engine(&[]);
    assert!(w.run(&e, e.transfer_element(&p("/l/d"))).is_ok());
    assert_eq!(w.remote.get("/m/d"), Some(&Node::Dir(0o750)));
}

#[test]
fn transfer_of_a_vanished_path_deletes_its_mirror() {
    let mut w = world();
    w.remote.insert("/m/old".into(), Node::Dir(0o755));
    w.remote.insert("/m/old/f".into(), Node::File(vec![9], 0o644));
    let e = engine(&[]);
    assert!(w.run(&e, e.transfer_element(&p("/l/old"))).is_ok());
    assert!(!w.remote.contains_key("/m/old"));
    assert!(!w.remote.contains_key("/m/old/f"));
}

#[test]
fn transfer_of_a_path_outside_the_root_is_skipped() {
    let mut w = world();
    w.local.insert("/q".into(), Local::Dir(0o755));
    w.local.insert("/q/f".into(), Local::File(vec![], 0o644));
    let before = w.remote.clone();
    let e = engine(&[]);
    assert!(w.run(&e, e.transfer_element(&p("/q/f"))).is_ok());
    assert!(w.run(&e, e.transfer_element(&p("/q"))).is_ok());
    assert!(w.run(&e, e.apply(&p("/q/f"), Intent::Transfer)).is_ok());
    assert!(w.log.is_empty());
    assert_eq!(w.remote, before);
}

#[test]
fn full_sync_skips_a_listed_entry_outside_the_root() {
    let e = engine(&[]);
    let mut worker = e.transfer_all();
    assert!(matches!(worker.step(&e, Reply::Done), Step::Ask(Request::ReadLocalDir { .. })));
    let listing = Reply::LocalListing {
        entries: vec![
            LocalEntry { path: p("/elsewhere/d"), meta: Some(LocalMeta { kind: EntryKind::Dir, mode: 0o040755 }) },
            LocalEntry { path: p("/elsewhere/f"), meta: None },
        ],
        complete: true,
    };
    assert!(matches!(worker.step(&e, listing), Step::Finished(Ok(()))));
}

#[test]
fn transfer_leaves_excluded_and_other_kinds_alone() {
    let mut w = world();
    w.local.insert("/l/target".into(), Local::Dir(0o755));
    w.local.insert("/l/link".into(), Local::Link);
    let e = engine(&["target"]);
    assert!(w.run(&e, e.transfer_element(&p("/l/target"))).is_ok());
    assert!(w.run(&e, e.transfer_element(&p("/l/link"))).is_ok());
    assert!(w.run(&e, e.apply(&p("/l/link"), Intent::NoOp)).is_ok());
    assert!(w.log.is_empty());
}

#[test]
fn full_sync_copies_a_file_and_never_touches_a_blacklisted_directory() {
    let mut w = world();
    w.local.insert("/l/a.txt".into(), Local::File(b"hi".to_vec(), 0o644));
    w.local.insert("/l/target".into(), Local::Dir(0o755));
    w.local.insert("/l/target/big.o".into(), Local::File(vec![0; 8], 0o644));
    let e = engine(&["target"]);
    assert!(w.run(&e, e.transfer_all()).is_ok());
    assert_eq!(w.remote.get("/m/a.txt"), Some(&Node::File(b"hi".to_vec(), 0o644)));
    assert!(!w.log.iter().any(|l| l.contains("target")));
    assert_eq!(w.remote.len(), 3);
}

#[test]
fn full_sync_mirrors_every_file_and_directory() {
    let mut w = world();
    w.local.insert("/l/a".into(), Local::Dir(0o700));
    w.local.insert("/l/a/b".into(), Local::Dir(0o750));
    w.local.insert("/l/a/b/f1".into(), Local::File(b"one".to_vec(), 0o600));
    w.local.insert("/l/a/f2".into(), Local::File(b"two".to_vec(), 0o755));
    w.local.insert("/l/f3".into(), Local::File(vec![], 0o444));
    w.local.insert("/l/empty".into(), Local::Dir(0o755));
    w.local.insert("/l/link".into(), Local::Link);
    let e = engine(&[]);
    assert!(w.run(&e, e.transfer_all()).is_ok());
    let mut expected = BTreeMap::new();
    expected.insert("/".to_string(), Node::Dir(0o755));
    expected.insert("/m".to_string(), Node::Dir(0o755));
    expected.insert("/m/a".to_string(), Node::Dir(0o700));
    expected.insert("/m/a/b".to_string(), Node::Dir(0o750));
    expected.insert("/m/a/b/f1".to_string(), Node::File(b"one".to_vec(), 0o600));
    expected.insert("/m/a/f2".to_string(), Node::File(b"two".to_vec(), 0o755));
    expected.insert("/m/f3".to_string(), Node::File(vec![], 0o444));
    expected.insert("/m/empty".to_string(), Node::Dir(0o755));
    assert_eq!(w.remote, expected);
}

#[test]
fn full_sync_walks_breadth_first() {
    let mut w = world();
    w.local.insert("/l/a".into(), Local::Dir(0o755));
    w.local.insert("/l/a/deep".into(), Local::File(vec![], 0o644));
    w.local.insert("/l/z".into(), Local::File(vec![], 0o644));
    let e = engine(&[]);
    assert!(w.run(&e, e.transfer_all()).is_ok());
    let z = w.log.iter().position(|l| l == "upload /l/z /m/z").unwrap();
    let deep = w.log.iter().position(|l| l == "upload /l/a/deep /m/a/deep").unwrap();
    assert!(z < deep);
}

#[test]
fn full_sync_stops_at_unreadable_metadata() {
    let mut w = world();
    w.local.insert("/l/a".into(), Local::File(b"a".to_vec(), 0o644));
    w.local.insert("/l/b".into(), Local::File(b"b".to_vec(), 0o644));
    w.local.insert("/l/c".into(), Local::File(b"c".to_vec(), 0o644));
    w.unreadable.push("/l/b".into());
    let e = engine(&[]);
    match w.run(&e, e.transfer_all()) {
        Err(SyncError::Metadata { path }) => assert_eq!(path.to_string(), "/l/b"),
        other => panic!("unexpected {:?}", other),
    }
    assert!(w.remote.contains_key("/m/a"));
    assert!(!w.remote.contains_key("/m/c"));
}

#[test]
fn full_sync_fails_where_the_root_cannot_be_listed() {
    let mut w = World::new();
    let e = engine(&[]);
    match w.run(&e, e.transfer_all()) {
        Err(SyncError::ReadDir { path }) => assert_eq!(path.to_string(), "/l"),
        other => panic!("unexpected {:?}", other),
    }
}

#[test]
fn a_broken_listing_fails_behind_the_entries_that_were_read() {
    let e = engine(&[]);
    let mut worker = e.transfer_all();
    let first = worker.step(&e, Reply::Done);
    assert!(matches!(first, Step::Ask(Request::ReadLocalDir { .. })));
    let listing = Reply::LocalListing {
        entries: vec![LocalEntry {
            path: p("/l/d"),
            meta: Some(LocalMeta { kind: EntryKind::Dir, mode: 0o040755 }),
        }],
        complete: false,
    };
    let mut step = worker.step(&e, listing);
    let mut asked = Vec::new();
    while let Step::Ask(request) = step {
        asked.push(format!("{:?}", request.subject().to_string()));
        step = worker.step(&e, Reply::Done);
    }
    assert_eq!(asked, vec!["\"/\"", "\"/m\"", "\"/m/d\""]);
    match step {
        Step::Finished(Err(SyncError::ReadDir { path })) => assert_eq!(path.to_string(), "/l"),
        other => panic!("unexpected {:?}", other),
    }
}

#[test]
fn editor_save_ends_with_the_final_content_remote() {
    let mut w = world();
    w.local.insert("/l/f".into(), Local::File(b"final".to_vec(), 0o644));
    w.remote.insert("/m/f".into(), Node::File(b"stale".to_vec(), 0o644));
    let e = engine(&[]);
    let events = vec![
        RawEvent { kind: EventKind::Modified, paths: vec![p("/l/f")] },
        RawEvent { kind: EventKind::Removed, paths: vec![p("/l/f")] },
        RawEvent { kind: EventKind::Created, paths: vec![p("/l/f")] },
    ];
    let intents = reduce(e.filter(), &events);
    assert_eq!(intents.len(), 1);
    assert_eq!(intents[0].1, Intent::Transfer);
    for (path, intent) in &intents {
        assert!(w.run(&e, e.apply(path, *intent)).is_ok());
    }
    assert_eq!(w.remote.get("/m/f"), Some(&Node::File(b"final".to_vec(), 0o644)));
    assert_eq!(w.log.iter().filter(|l| l.starts_with("upload")).count(), 1);
    assert!(!w.log.iter().any(|l| l.starts_with("unlink")));
}

#[test]
fn a_finished_worker_stays_finished() {
    let e = engine(&[]);
    let mut worker = RemoteTree::remove(&p("/m/x"));
    assert!(!worker.is_idle());
    assert!(matches!(worker.step(&e, Reply::Done), Step::Ask(Request::Unlink { .. })));
    assert!(matches!(worker.step(&e, Reply::Done), Step::Finished(Ok(()))));
    assert!(worker.is_idle());
    assert!(matches!(worker.step(&e, Reply::Failed), Step::Finished(Ok(()))));
}

#[test]
fn engine_maps_local_paths_to_remote_ones() {
    let e = Engine::new(p("/l"), p("."), &vec!["x/y".to_string()], 3);
    assert_eq!(e.remote_of(&p("/l/a/b")).unwrap().to_string(), "./a/b");
    assert_eq!(e.rel(&p("/l/a/b")).unwrap().to_string(), "a/b");
    assert!(e.rel(&p("/other")).is_none());
    assert!(e.remote_of(&p("/other")).is_none());
    assert_eq!(e.local_root().to_string(), "/l");
    assert_eq!(e.remote_root().to_string(), ".");
    assert_eq!(e.debounce_s(), 3);
    assert!(e.is_blacklisted(&p("/l/x/y/z")));
    assert!(!e.is_blacklisted(&p("/l/x/z")));
}

#[test]
fn full_sync_never_enters_a_directory_excluded_by_name() {
    let mut w = world();
    w.local.insert("/l/a".into(), Local::Dir(0o755));
    w.local.insert("/l/a/y".into(), Local::Dir(0o755));
    w.local.insert("/l/a/y/z".into(), Local::File(b"z".to_vec(), 0o644));
    w.local.insert("/l/a/keep".into(), Local::File(b"k".to_vec(), 0o644));
    w.remote.insert("/m/a".into(), Node::Dir(0o755));
    w.remote.insert("/m/a/y".into(), Node::Dir(0o700));
    w.remote.insert("/m/a/y/old".into(), Node::File(b"old".to_vec(), 0o600));
    let e = engine(&["x/y"]);
    assert!(w.run(&e, e.transfer_all()).is_ok());
    assert!(!w.log.iter().any(|l| l.contains("/m/a/y") || l.contains("/l/a/y")));
    assert_eq!(w.remote.get("/m/a/y"), Some(&Node::Dir(0o700)));
    assert_eq!(w.remote.get("/m/a/y/old"), Some(&Node::File(b"old".to_vec(), 0o600)));
    assert!(!w.remote.contains_key("/m/a/y/z"));
    assert_eq!(w.remote.get("/m/a/keep"), Some(&Node::File(b"k".to_vec(), 0o644)));
}

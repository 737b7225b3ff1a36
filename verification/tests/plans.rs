use rmote::engine::Engine;
use rmote::path::SyncPath;
use rmote::plan::{
    plan_delete, plan_ensure_dir, plan_remove_dir, plan_scan, plan_transfer, plan_upload, Policy,
    Task, DEFAULT_DIR_MODE,
};
use rmote::remote::{
    EntryKind, LocalEntry, LocalMeta, RemoteEntry, RemoteStat, Request, SyncError,
};
use rmote::worker::Worker;

fn p(s: &str) -> SyncPath {
    SyncPath::parse(s)
}

fn show(task: &Task) -> String {
    match task {
        Task::Ask { request, policy } => {
            let what = match request {
                Request::Mkdir { path, mode } => format!("mkdir {} {:o}", path.to_string(), mode),
                Request::Stat { path } => format!("stat {}", path.to_string()),
                Request::Unlink { path } => format!("unlink {}", path.to_string()),
                Request::Rmdir { path } => format!("rmdir {}", path.to_string()),
                Request::ReadRemoteDir { path } => format!("readdir {}", path.to_string()),
                Request::Upload { local, remote } => {
                    format!("upload {} {}", local.to_string(), remote.to_string())
                }
                Request::SetMode { path, mode } => {
                    format!("setmode {} {:o}", path.to_string(), mode)
                }
                Request::LocalStat { path } => format!("lstat {}", path.to_string()),
                Request::ReadLocalDir { path } => format!("scan {}", path.to_string()),
            };
            format!("{} [{:?}]", what, policy)
        }
        Task::Fail { error } => match error {
            SyncError::CreateDir { path } => format!("fail mkdir {}", path.to_string()),
            SyncError::Upload { path } => format!("fail upload {}", path.to_string()),
            SyncError::ReadDir { path } => format!("fail readdir {}", path.to_string()),
            SyncError::Metadata { path } => format!("fail metadata {}", path.to_string()),
        },
    }
}

fn shown(tasks: &[Task]) -> Vec<String> {
    tasks.iter().map(show).collect()
}

fn engine(blacklist: &[&str]) -> Engine {
    let list: Vec<String> = blacklist.iter().map(|s| s.to_string()).collect();
    Engine::new(p("/l"), p("/m"), &list, 1)
}

fn file(mode: u32) -> LocalMeta {
    LocalMeta { kind: EntryKind::File, mode }
}

fn dir(mode: u32) -> LocalMeta {
    LocalMeta { kind: EntryKind::Dir, mode }
}

#[test]
fn ensure_dir_plans_one_mkdir_for_each_prefix() {
    assert_eq!(
        shown(&plan_ensure_dir(&p("/a/b"), 0o700)),
        vec!["mkdir / 700 [ProbeOnFail]", "mkdir /a 700 [ProbeOnFail]", "mkdir /a/b 700 [ProbeOnFail]"]
    );
    assert_eq!(
        shown(&plan_ensure_dir(&p("./x"), 0o755)),
        vec!["mkdir . 755 [ProbeOnFail]", "mkdir ./x 755 [ProbeOnFail]"]
    );
    assert!(plan_ensure_dir(&p(""), 0o755).is_empty());
}

#[test]
fn upload_plans_the_bytes_and_then_the_mode() {
    assert_eq!(
        shown(&plan_upload(&p("/l/f"), &p("/m/f"), 0o640)),
        vec!["upload /l/f /m/f [MustUpload]", "setmode /m/f 640 [Ignore]"]
    );
}

#[test]
fn transfer_of_a_file_makes_sure_of_the_parent_with_the_default_mode() {
    assert_eq!(DEFAULT_DIR_MODE, 0o755);
    assert_eq!(
        shown(&plan_transfer(&p("/l/d/f"), &p("/m/d/f"), file(0o100640))),
        vec![
            "mkdir / 755 [ProbeOnFail]",
            "mkdir /m 755 [ProbeOnFail]",
            "mkdir /m/d 755 [ProbeOnFail]",
            "upload /l/d/f /m/d/f [MustUpload]",
            "setmode /m/d/f 640 [Ignore]",
        ]
    );
}

#[test]
fn transfer_of_a_top_level_file_has_no_parent_to_make() {
    assert_eq!(
        shown(&plan_transfer(&p("/l/f"), &p("f"), file(0o777))),
        vec!["upload /l/f f [MustUpload]", "setmode f 777 [Ignore]"]
    );
}

#[test]
fn transfer_of_a_directory_keeps_only_the_permission_bits() {
    assert_eq!(
        shown(&plan_transfer(&p("/l/d"), &p("m/d"), dir(0o042755))),
        vec!["mkdir m 755 [ProbeOnFail]", "mkdir m/d 755 [ProbeOnFail]"]
    );
}

#[test]
fn transfer_of_anything_else_plans_nothing() {
    let other = LocalMeta { kind: EntryKind::Other, mode: 0o120777 };
    assert!(plan_transfer(&p("/l/s"), &p("/m/s"), other).is_empty());
}

#[test]
fn delete_plans_the_removal_of_the_mirror() {
    let e = engine(&["target"]);
    assert_eq!(shown(&plan_delete(&e, &p("/l/a/b"))), vec!["unlink /m/a/b [TryDirOnFail]"]);
    assert!(plan_delete(&e, &p("/l/target/x")).is_empty());
    assert!(plan_delete(&e, &p("/elsewhere")).is_empty());
}

#[test]
fn remove_dir_plans_children_first_and_skips_self_and_parent() {
    let entry = |path: &str, perm: u32| RemoteEntry { path: p(path), stat: RemoteStat { perm: Some(perm) } };
    let entries = vec![
        entry("/m/d/f", 0o100644),
        entry("/m/d/.", 0o040755),
        entry("/m/d/sub", 0o040755),
        entry("/m/d/..", 0o040755),
        entry("/m/d/link", 0o120777),
    ];
    assert_eq!(
        shown(&plan_remove_dir(&p("/m/d"), &entries)),
        vec![
            "unlink /m/d/f [Ignore]",
            "readdir /m/d/sub [RemoveChildren]",
            "unlink /m/d/link [Ignore]",
            "rmdir /m/d [Ignore]",
        ]
    );
    assert_eq!(shown(&plan_remove_dir(&p("/m/d"), &Vec::new())), vec!["rmdir /m/d [Ignore]"]);
}

#[test]
fn scan_plans_entries_now_and_directories_later() {
    let e = engine(&["target"]);
    let entries = vec![
        LocalEntry { path: p("/l/a"), meta: Some(dir(0o040700)) },
        LocalEntry { path: p("/l/target"), meta: Some(dir(0o040755)) },
        LocalEntry { path: p("/l/f"), meta: Some(file(0o100600)) },
        LocalEntry { path: p("/l/s"), meta: Some(LocalMeta { kind: EntryKind::Other, mode: 0 }) },
    ];
    let (now, later) = plan_scan(&e, &p("/l"), &entries, true);
    assert_eq!(
        shown(&now),
        vec![
            "mkdir / 700 [ProbeOnFail]",
            "mkdir /m 700 [ProbeOnFail]",
            "mkdir /m/a 700 [ProbeOnFail]",
            "mkdir / 755 [ProbeOnFail]",
            "mkdir /m 755 [ProbeOnFail]",
            "upload /l/f /m/f [MustUpload]",
            "setmode /m/f 600 [Ignore]",
        ]
    );
    let later: Vec<Task> = later.into_iter().collect();
    assert_eq!(shown(&later), vec!["scan /l/a [Scan]"]);
}

#[test]
fn scan_skips_an_entry_outside_the_root_and_goes_on() {
    let e = engine(&[]);
    let entries = vec![
        LocalEntry { path: p("/l/a"), meta: Some(file(0o100644)) },
        LocalEntry { path: p("/q/b"), meta: Some(dir(0o040755)) },
        LocalEntry { path: p("/q/u"), meta: None },
        LocalEntry { path: p("/l/c"), meta: Some(file(0o100600)) },
    ];
    let (now, later) = plan_scan(&e, &p("/l"), &entries, true);
    assert_eq!(
        shown(&now),
        vec![
            "mkdir / 755 [ProbeOnFail]",
            "mkdir /m 755 [ProbeOnFail]",
            "upload /l/a /m/a [MustUpload]",
            "setmode /m/a 644 [Ignore]",
            "mkdir / 755 [ProbeOnFail]",
            "mkdir /m 755 [ProbeOnFail]",
            "upload /l/c /m/c [MustUpload]",
            "setmode /m/c 600 [Ignore]",
        ]
    );
    assert!(later.is_empty());
}

#[test]
fn scan_stops_at_the_first_entry_it_cannot_read() {
    let e = engine(&[]);
    let entries = vec![
        LocalEntry { path: p("/l/a"), meta: Some(file(0o100644)) },
        LocalEntry { path: p("/l/b"), meta: None },
        LocalEntry { path: p("/l/c"), meta: Some(file(0o100644)) },
    ];
    let (now, later) = plan_scan(&e, &p("/l"), &entries, true);
    assert_eq!(shown(&now).last().unwrap(), "fail metadata /l/b");
    assert_eq!(now.len(), 5);
    assert!(later.is_empty());

    let (now, _) = plan_scan(&e, &p("/l"), &Vec::new(), false);
    assert_eq!(shown(&now), vec!["fail readdir /l"]);
}

#[test]
fn scan_skips_excluded_entries_even_where_unreadable() {
    let e = engine(&["target"]);
    let entries = vec![LocalEntry { path: p("/l/target"), meta: None }];
    let (now, later) = plan_scan(&e, &p("/l"), &entries, true);
    assert!(now.is_empty());
    assert!(later.is_empty());
}

#[test]
fn a_worker_runs_its_tasks_in_order() {
    let e = engine(&[]);
    let mut w = Worker::with_tasks(plan_ensure_dir(&p("a/b"), 0o755));
    let mut asked = Vec::new();
    let mut step = w.step(&e, rmote::remote::Reply::Done);
    while let rmote::worker::Step::Ask(request) = step {
        asked.push(request.subject().to_string());
        let copy = request.clone_request();
        assert_eq!(copy.subject().to_string(), request.subject().to_string());
        step = w.step(&e, rmote::remote::Reply::Done);
    }
    assert_eq!(asked, vec!["a", "a/b"]);
    assert!(matches!(Policy::Ignore, Policy::Ignore));
}

use rmote::cli::{expand_tilde, Cli};
use rmote::coalesce::RawEvent;
use rmote::dispatch::{ingest, judge, Action, Dispatcher, Phase, Received, Stage, Verdict};
use rmote::remote::SyncError;
use rmote::engine::Engine;
use rmote::intent::{EventKind, Intent};
use rmote::path::SyncPath;

fn p(s: &str) -> SyncPath {
    SyncPath::parse(s)
}

fn ev(kind: EventKind, path: &str) -> RawEvent {
    RawEvent { kind, paths: vec![p(path)] }
}

fn engine(debounce_s: u64) -> Engine {
    Engine::new(p("/l"), p("/m"), &vec!["target".to_string()], debounce_s)
}

#[test]
fn dispatcher_gathers_until_the_window_closes() {
    let e = engine(2);
    let mut d = Dispatcher::new();
    assert_eq!(d.phase(), Phase::Idle);
    assert!(matches!(d.poll(&e, Received::Event(ev(EventKind::Modified, "/l/f")), 0), Action::Wait));
    assert_eq!(d.phase(), Phase::Draining);
    assert_eq!(d.pending_len(), 1);
    assert!(matches!(d.poll(&e, Received::Empty, 1), Action::Wait));
    assert_eq!(d.phase(), Phase::Idle);
    assert_eq!(d.pending_len(), 1);
    match d.poll(&e, Received::Event(ev(EventKind::Removed, "/l/f")), 2) {
        Action::Reconcile(intents) => {
            assert_eq!(intents.len(), 1);
            assert_eq!(intents[0].0.to_string(), "/l/f");
            assert_eq!(intents[0].1, Intent::Delete);
        }
        other => panic!("unexpected {:?}", other),
    }
    assert_eq!(d.phase(), Phase::Reconciling);
    assert_eq!(d.pending_len(), 0);
    d.settle();
    assert_eq!(d.phase(), Phase::Idle);
}

#[test]
fn dispatcher_reconciles_an_empty_window_to_nothing() {
    let e = engine(1);
    let mut d = Dispatcher::new();
    match d.poll(&e, Received::Empty, 5) {
        Action::Reconcile(intents) => assert!(intents.is_empty()),
        other => panic!("unexpected {:?}", other),
    }
}

#[test]
fn dispatcher_with_no_window_reconciles_at_once() {
    let e = engine(0);
    let mut d = Dispatcher::new();
    match d.poll(&e, Received::Event(ev(EventKind::Created, "/l/f")), 0) {
        Action::Reconcile(intents) => assert_eq!(intents[0].1, Intent::Transfer),
        other => panic!("unexpected {:?}", other),
    }
}

#[test]
fn dispatcher_leaves_the_loop_when_the_queue_is_gone() {
    let e = engine(1);
    let mut d = Dispatcher::new();
    assert!(matches!(d.poll(&e, Received::Event(ev(EventKind::Created, "/l/f")), 0), Action::Wait));
    assert!(matches!(d.poll(&e, Received::Disconnected, 9), Action::Exit));
    assert_eq!(d.pending_len(), 1);
    assert_eq!(d.phase(), Phase::Draining);
}

#[test]
fn dispatcher_drops_excluded_paths_when_it_reconciles() {
    let e = engine(1);
    let mut d = Dispatcher::new();
    assert!(matches!(
        d.poll(&e, Received::Event(ev(EventKind::Created, "/l/target/x")), 0),
        Action::Wait
    ));
    match d.poll(&e, Received::Event(ev(EventKind::Created, "/l/src/x")), 1) {
        Action::Reconcile(intents) => {
            assert_eq!(intents.len(), 1);
            assert_eq!(intents[0].0.to_string(), "/l/src/x");
        }
        other => panic!("unexpected {:?}", other),
    }
}

#[test]
fn ingestion_forwards_only_kinds_of_interest() {
    assert!(ingest(ev(EventKind::Created, "/l/f")).is_some());
    assert!(ingest(ev(EventKind::Modified, "/l/f")).is_some());
    assert!(ingest(ev(EventKind::Removed, "/l/f")).is_some());
    assert!(ingest(ev(EventKind::Other, "/l/f")).is_none());
    let kept = ingest(ev(EventKind::Removed, "/l/g")).unwrap();
    assert_eq!(kept.kind, EventKind::Removed);
    assert_eq!(kept.paths[0].to_string(), "/l/g");
}

#[test]
fn tilde_expands_to_the_home_directory() {
    assert_eq!(expand_tilde("~/.ssh/id_ed25519", Some("/home/u")), "/home/u/.ssh/id_ed25519");
    assert_eq!(expand_tilde("~/.ssh/id_ed25519", None), "~/.ssh/id_ed25519");
    assert_eq!(expand_tilde("/etc/key", Some("/home/u")), "/etc/key");
    assert_eq!(expand_tilde("~", Some("/home/u")), "~");
    assert_eq!(expand_tilde("~user/key", Some("/home/u")), "~user/key");
    assert_eq!(expand_tilde("~//abs/key", Some("/home/u")), "/abs/key");
    assert_eq!(expand_tilde("", Some("/home/u")), "");
}

fn cli() -> Cli {
    Cli {
        host: "example.org".to_string(),
        port: 22,
        user: "root".to_string(),
        identity: "~/.ssh/id_ed25519".to_string(),
        identity_pub: "~/.ssh/id_ed25519.pub".to_string(),
        passphrase: None,
        remote_dir: "srv/mirror".to_string(),
        initial_sync: true,
        no_initial_sync: false,
        blacklist: vec!["build".to_string(), "x/y".to_string()],
        debounce_s: 4,
    }
}

#[test]
fn initial_sync_runs_unless_switched_off() {
    let mut c = cli();
    assert!(c.runs_initial_sync());
    c.no_initial_sync = true;
    assert!(!c.runs_initial_sync());
    c.initial_sync = false;
    assert!(!c.runs_initial_sync());
    c.no_initial_sync = false;
    assert!(!c.runs_initial_sync());
}

#[test]
fn settings_make_the_engine() {
    let e = cli().engine(p("/r"));
    assert_eq!(e.local_root().to_string(), "/r");
    assert_eq!(e.remote_root().to_string(), "srv/mirror");
    assert_eq!(e.debounce_s(), 4);
    assert!(e.is_blacklisted(&p("/r/build/out.o")));
    assert!(e.is_blacklisted(&p("/r/x/y/z")));
    assert!(e.is_blacklisted(&p("/r/other/build")));
    assert!(!e.is_blacklisted(&p("/r/src")));
    assert_eq!(e.remote_of(&p("/r/src/a")).unwrap().to_string(), "srv/mirror/src/a");
}

#[test]
fn a_failed_path_is_reported_and_the_loop_goes_on() {
    let failure = || Err(SyncError::Upload { path: p("/m/f") });
    match judge(Stage::Reconcile, failure()) {
        Verdict::Report(SyncError::Upload { path }) => assert_eq!(path.to_string(), "/m/f"),
        other => panic!("unexpected {:?}", other),
    }
    assert!(matches!(judge(Stage::Reconcile, Ok(())), Verdict::GoOn));
}

#[test]
fn a_failure_at_startup_ends_the_run() {
    let failure = || Err(SyncError::CreateDir { path: p("/m") });
    match judge(Stage::Setup, failure()) {
        Verdict::Abort(SyncError::CreateDir { path }) => assert_eq!(path.to_string(), "/m"),
        other => panic!("unexpected {:?}", other),
    }
    assert!(matches!(
        judge(Stage::FullSync, Err(SyncError::ReadDir { path: p("/l") })),
        Verdict::Abort(SyncError::ReadDir { .. })
    ));
    assert!(matches!(judge(Stage::Setup, Ok(())), Verdict::GoOn));
    assert!(matches!(judge(Stage::FullSync, Ok(())), Verdict::GoOn));
}

use rmote::filter::PathFilter;
use rmote::path::SyncPath;

fn p(s: &str) -> SyncPath {
    SyncPath::parse(s)
}

fn filter(root: &str, entries: &[&str]) -> PathFilter {
    let list: Vec<String> = entries.iter().map(|s| s.to_string()).collect();
    PathFilter::new(p(root), &list)
}

#[test]
fn blacklist_excludes_by_prefix_and_by_name() {
    let f = filter("/r", &["build", "x/y"]);
    assert!(f.is_excluded(&p("/r/build/out.o")));
    assert!(f.is_excluded(&p("/r/x/y/z")));
    assert!(f.is_excluded(&p("/r/other/build")));
}

#[test]
fn blacklist_matches_components_not_substrings() {
    let f = filter("/r", &["build", "x/y"]);
    assert!(!f.is_excluded(&p("/r/builder/out.o")));
    assert!(!f.is_excluded(&p("/r/x/yz")));
    assert!(!f.is_excluded(&p("/r/src/main.rs")));
    assert!(!f.is_excluded(&p("/r/x")));
    assert!(!f.is_excluded(&p("/r")));
}

#[test]
fn blacklist_entry_matches_by_its_final_name_anywhere() {
    let f = filter("/r", &["x/y"]);
    assert!(f.is_excluded(&p("/r/deep/y")));
    assert!(f.is_excluded(&p("/elsewhere/y")));
    assert!(!f.is_excluded(&p("/r/deep/x")));
}

#[test]
fn blacklist_entry_matches_as_written_or_under_the_root() {
    let f = filter("/r", &["/abs/dir", "rel/dir"]);
    assert!(f.is_excluded(&p("/abs/dir/f")));
    assert!(f.is_excluded(&p("/r/rel/dir/f")));
    assert!(f.is_excluded(&p("rel/dir/f")));
    assert!(!f.is_excluded(&p("/r/abs/f")));
    assert!(!f.is_excluded(&p("/other/rel/f")));
}

#[test]
fn empty_blacklist_excludes_nothing() {
    let f = filter("/r", &[]);
    assert!(!f.is_excluded(&p("/r/build/out.o")));
    assert!(!f.is_excluded(&p("")));
    assert!(f.root().same(&p("/r")));
}

#[test]
fn filtering_is_a_function_of_the_path_alone() {
    let f = filter("/r", &["target"]);
    let path = p("/r/target/debug/x");
    let first = f.is_excluded(&path);
    let second = f.is_excluded(&path);
    assert!(first);
    assert_eq!(first, second);
}

use rmote::path::SyncPath;

fn p(s: &str) -> SyncPath {
    SyncPath::parse(s)
}

#[test]
fn parse_keeps_root_and_names() {
    let path = p("/r/build/out.o");
    assert_eq!(path.len(), 4);
    assert!(path.is_absolute());
    assert_eq!(path.part(0), "/");
    assert_eq!(path.part(1), "r");
    assert_eq!(path.part(2), "build");
    assert_eq!(path.part(3), "out.o");
    assert_eq!(path.to_string(), "/r/build/out.o");
}

#[test]
fn parse_drops_empty_and_dot_segments() {
    assert_eq!(p("a//b/./c/").to_string(), "a/b/c");
    assert_eq!(p("/./a").to_string(), "/a");
    assert_eq!(p("//").to_string(), "/");
    assert_eq!(p("").len(), 0);
    assert_eq!(p("").to_string(), "");
}

#[test]
fn parse_keeps_a_leading_dot_and_every_dot_dot() {
    assert_eq!(p(".").to_string(), ".");
    assert_eq!(p("./a").to_string(), "./a");
    assert_eq!(p("./a").len(), 2);
    assert_eq!(p("a/..").to_string(), "a/..");
    assert_eq!(p("a/../b").len(), 3);
    assert_eq!(p(".hidden").to_string(), ".hidden");
}

#[test]
fn parse_counts_characters_not_bytes() {
    let path = p("/données/été.txt");
    assert_eq!(path.len(), 3);
    assert_eq!(path.part(1), "données");
    assert_eq!(path.to_string(), "/données/été.txt");
}

#[test]
fn starts_with_compares_whole_components() {
    assert!(p("/r/build/out.o").starts_with(&p("/r/build")));
    assert!(p("/r/build").starts_with(&p("/r/build")));
    assert!(!p("/r/builder").starts_with(&p("/r/build")));
    assert!(!p("/r").starts_with(&p("/r/build")));
    assert!(p("/r").starts_with(&p("")));
    assert!(!p("r/build").starts_with(&p("/r")));
}

#[test]
fn same_is_equality_of_components() {
    assert!(p("/a//b/").same(&p("/a/b")));
    assert!(!p("/a/b").same(&p("a/b")));
    assert!(!p("/a").same(&p("/a/b")));
}

#[test]
fn file_name_is_the_last_ordinary_name() {
    assert_eq!(p("/r/other/build").file_name(), Some("build".to_string()));
    assert_eq!(p("x/y").file_name(), Some("y".to_string()));
    assert_eq!(p("/").file_name(), None);
    assert_eq!(p("a/..").file_name(), None);
    assert_eq!(p(".").file_name(), None);
    assert_eq!(p("").file_name(), None);
}

#[test]
fn parent_gives_up_the_last_component() {
    assert_eq!(p("/a/b").parent().unwrap().to_string(), "/a");
    assert_eq!(p("/a").parent().unwrap().to_string(), "/");
    assert_eq!(p("a").parent().unwrap().to_string(), "");
    assert!(p("/").parent().is_none());
    assert!(p("").parent().is_none());
}

#[test]
fn join_appends_replaces_and_swallows_a_dot() {
    assert_eq!(p("/r").join(&p("x/y")).to_string(), "/r/x/y");
    assert_eq!(p("/r").join(&p("/abs/x")).to_string(), "/abs/x");
    assert_eq!(p("/r").join(&p("./x")).to_string(), "/r/x");
    assert_eq!(p("").join(&p("./x")).to_string(), "./x");
    assert_eq!(p(".").join(&p("a/b")).to_string(), "./a/b");
    assert_eq!(p("/r").join(&p("")).to_string(), "/r");
}

#[test]
fn strip_prefix_gives_the_relative_path() {
    assert_eq!(p("/r/a/b").strip_prefix(&p("/r")).unwrap().to_string(), "a/b");
    assert_eq!(p("/r").strip_prefix(&p("/r")).unwrap().len(), 0);
    assert!(p("/q/a").strip_prefix(&p("/r")).is_none());
    assert!(p("/rr/a").strip_prefix(&p("/r")).is_none());
}

#[test]
fn take_and_skip_split_a_path() {
    let path = p("/a/b/c");
    assert_eq!(path.take(2).to_string(), "/a");
    assert_eq!(path.skip(2).to_string(), "b/c");
    assert_eq!(path.take(0).len(), 0);
    assert_eq!(path.skip(4).len(), 0);
    assert!(path.clone_path().same(&path));
    assert!(p("a/..").ends_in_up());
    assert!(!p("a/b").ends_in_up());
    assert_eq!(SyncPath::empty().len(), 0);
}

#[test]
fn printing_and_reading_a_path_round_trip() {
    for s in ["/", "/a", "/a/b", "a", "a/b", ".", "./a", "..", "../a", "a/../b", ""] {
        let path = p(s);
        assert_eq!(path.to_string(), s);
        assert!(p(&path.to_string()).same(&path));
    }
}

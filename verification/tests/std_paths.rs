use rmote::path::SyncPath;
use std::path::{Component, Path};

const SAMPLES: [&str; 30] = [
    "",
    "/",
    "//",
    ".",
    "..",
    "./",
    "a",
    "a/",
    "a/b",
    "a//b",
    "a/./b",
    "a/b/.",
    "a/b/..",
    "a/../b",
    "./a",
    "./a/b",
    "../a",
    "/a",
    "/a/b",
    "/a/b/",
    "/a/./b",
    "/./a",
    "/../a",
    "/r/build",
    "/r/build/out.o",
    "/r/builder",
    "/r/x/y/z",
    ".hidden",
    "a.b/c.d",
    "/r",
];

fn std_parts(path: &Path) -> Vec<String> {
    path.components()
        .map(|c| match c {
            Component::RootDir => "/".to_string(),
            Component::CurDir => ".".to_string(),
            Component::ParentDir => "..".to_string(),
            other => other.as_os_str().to_string_lossy().into_owned(),
        })
        .collect()
}

fn own_parts(path: &SyncPath) -> Vec<String> {
    (0..path.len()).map(|i| path.part(i).clone()).collect()
}

#[test]
fn parse_agrees_with_std_on_components() {
    for s in SAMPLES {
        assert_eq!(own_parts(&SyncPath::parse(s)), std_parts(Path::new(s)), "components of {:?}", s);
        assert_eq!(SyncPath::parse(s).is_absolute(), Path::new(s).is_absolute(), "root of {:?}", s);
    }
}

#[test]
fn printing_names_the_same_path_as_std() {
    for s in SAMPLES {
        let printed = SyncPath::parse(s).to_string();
        assert_eq!(std_parts(Path::new(&printed)), std_parts(Path::new(s)), "printing {:?}", s);
    }
}

#[test]
fn starts_with_agrees_with_std() {
    for a in SAMPLES {
        for b in SAMPLES {
            assert_eq!(
                SyncPath::parse(a).starts_with(&SyncPath::parse(b)),
                Path::new(a).starts_with(Path::new(b)),
                "{:?} starts with {:?}",
                a,
                b
            );
        }
    }
}

#[test]
fn join_agrees_with_std() {
    for a in SAMPLES {
        for b in SAMPLES {
            assert_eq!(
                own_parts(&SyncPath::parse(a).join(&SyncPath::parse(b))),
                std_parts(&Path::new(a).join(Path::new(b))),
                "{:?} joined with {:?}",
                a,
                b
            );
        }
    }
}

#[test]
fn strip_prefix_agrees_with_std() {
    for a in SAMPLES {
        for b in SAMPLES {
            let own = SyncPath::parse(a).strip_prefix(&SyncPath::parse(b)).map(|r| own_parts(&r));
            let std = Path::new(a).strip_prefix(Path::new(b)).ok().map(std_parts);
            assert_eq!(own, std, "{:?} without {:?}", a, b);
        }
    }
}

#[test]
fn file_name_agrees_with_std() {
    for s in SAMPLES {
        let std = Path::new(s).file_name().map(|n| n.to_string_lossy().into_owned());
        assert_eq!(SyncPath::parse(s).file_name(), std, "file name of {:?}", s);
    }
}

#[test]
fn parent_agrees_with_std() {
    for s in SAMPLES {
        let own = SyncPath::parse(s).parent().map(|r| own_parts(&r));
        let std = Path::new(s).parent().map(std_parts);
        assert_eq!(own, std, "parent of {:?}", s);
    }
}

#[test]
fn mirror_of_a_path_agrees_with_std() {
    for root in ["/l", "/", "/a/b"] {
        for remote in ["/m", ".", "", "srv/mirror"] {
            for s in SAMPLES {
                let own = SyncPath::parse(s)
                    .strip_prefix(&SyncPath::parse(root))
                    .map(|rel| own_parts(&SyncPath::parse(remote).join(&rel)));
                let std = Path::new(s)
                    .strip_prefix(Path::new(root))
                    .ok()
                    .map(|rel| std_parts(&Path::new(remote).join(rel)));
                assert_eq!(own, std, "mirror of {:?} from {:?} to {:?}", s, root, remote);
            }
        }
    }
}

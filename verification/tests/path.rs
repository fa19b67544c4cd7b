use std::path::{self, Path, PathBuf};
use xbpf::path::{components, strip_matching_prefix_components, Component};

/// The components that the standard library sees in a path.
fn std_components(path: &str) -> Vec<Component> {
    Path::new(path)
        .components()
        .map(|c| match c {
            path::Component::RootDir => Component::RootDir,
            path::Component::CurDir => Component::CurDir,
            path::Component::ParentDir => Component::ParentDir,
            path::Component::Normal(name) => Component::Normal(name.to_str().unwrap().to_string()),
            path::Component::Prefix(_) => unreachable!(),
        })
        .collect()
}

/// Stripping, by the paths of the standard library.
fn std_strip(full: &str, base: &str) -> String {
    let mut full_it = Path::new(full).components().peekable();
    let mut base_it = Path::new(base).components().peekable();
    while let (Some(f), Some(b)) = (full_it.peek(), base_it.peek()) {
        if f == b {
            full_it.next();
            base_it.next();
        } else {
            break;
        }
    }
    let mut out = PathBuf::new();
    for c in full_it {
        out.push(c.as_os_str());
    }
    out.to_str().unwrap().to_string()
}

/// All texts of up to `len` characters from `alphabet`.
fn texts(alphabet: &[char], len: usize) -> Vec<String> {
    let mut all = vec![String::new()];
    let mut last = all.clone();
    for _ in 0..len {
        let mut next = Vec::new();
        for text in &last {
            for c in alphabet {
                next.push(format!("{}{}", text, c));
            }
        }
        all.extend(next.iter().cloned());
        last = next;
    }
    all
}

#[test]
fn components_are_those_of_a_unix_path() {
    for text in texts(&['/', '.', 'a'], 8) {
        assert_eq!(components(&text), std_components(&text), "{:?}", text);
    }
    assert_eq!(
        components("/usr//src/./\u{e9}/../x/"),
        vec![
            Component::RootDir,
            Component::Normal("usr".to_string()),
            Component::Normal("src".to_string()),
            Component::Normal("\u{e9}".to_string()),
            Component::ParentDir,
            Component::Normal("x".to_string()),
        ]
    );
}

#[test]
fn stripping_agrees_with_paths_of_the_standard_library() {
    let all = texts(&['/', '.', 'a', 'b'], 4);
    for full in &all {
        for base in &all {
            assert_eq!(
                strip_matching_prefix_components(full, base),
                std_strip(full, base),
                "{:?} {:?}",
                full,
                base
            );
        }
    }
}

#[test]
fn stripping_leaves_what_is_not_shared() {
    let strip = strip_matching_prefix_components;
    assert_eq!(strip("/w/repo/probes/tcp.c", "/w/repo/xbpf"), "probes/tcp.c");
    assert_eq!(strip("/w/repo", "/w/repo"), "");
    assert_eq!(strip("/w/repo/", "/w"), "repo");
    assert_eq!(strip("this/is/a/test_file.rs", "/w/repo"), "this/is/a/test_file.rs");
    assert_eq!(strip("/w", "w"), "/w");
    assert_eq!(strip("./a//b/./c", "x"), "./a/b/c");
    assert_eq!(strip("../a", ""), "../a");
    assert_eq!(strip("", "/w"), "");
}

#[test]
fn stripped_paths_keep_their_components() {
    for full in texts(&['/', '.', 'a'], 5) {
        let rest = strip_matching_prefix_components(&full, "/a");
        let whole = components(&full);
        assert!(whole.ends_with(&components(&rest)), "{:?}", full);
    }
}

use std::path::Path;

use bundle_reload::order::sort_paths;
use bundle_reload::path::PathComponent;
use bundle_reload::BundlePath;

const SAMPLES: [&str; 34] = [
    "",
    "/",
    "//",
    ".",
    "./",
    "..",
    "./a",
    "../a",
    "a",
    "a/",
    "a//",
    "a/.",
    "a/./b",
    "a//b",
    "a/b",
    "a/b/c",
    "a/..",
    "a.b",
    "a.b/c",
    "a-b",
    "/a",
    "/a/b",
    "/./a",
    "/../a",
    "b",
    "ab",
    "A",
    "a/b.tar.gz",
    "a/.hidden",
    "a/.hidden.txt",
    "a/trailing.",
    "...",
    "..a",
    "\u{e9}t\u{e9}/\u{2603}.cedar",
];

fn at(text: &str) -> BundlePath {
    BundlePath::from_text(text)
}

#[test]
fn order_is_that_of_std_paths() {
    for a in SAMPLES {
        for b in SAMPLES {
            assert_eq!(
                at(a).at_most(&at(b)),
                Path::new(a) <= Path::new(b),
                "{a:?} against {b:?}"
            );
        }
    }
}

#[test]
fn extension_is_that_of_std_paths() {
    for a in SAMPLES {
        let expected = Path::new(a)
            .extension()
            .map(|e| e.to_str().unwrap().as_bytes().to_vec());
        assert_eq!(at(a).extension(), expected, "{a:?}");
    }
}

#[test]
fn components_are_those_of_std_paths() {
    for a in SAMPLES {
        let expected: Vec<String> = Path::new(a)
            .components()
            .map(|c| format!("{c:?}"))
            .collect();
        let found: Vec<String> = at(a)
            .components()
            .iter()
            .map(|c| match c {
                PathComponent::RootDir => "RootDir".to_string(),
                PathComponent::CurDir => "CurDir".to_string(),
                PathComponent::ParentDir => "ParentDir".to_string(),
                PathComponent::Normal(name) => {
                    format!("Normal({:?})", std::str::from_utf8(name).unwrap())
                }
            })
            .collect();
        assert_eq!(found, expected, "{a:?}");
    }
}

#[test]
fn text_is_that_of_std_paths() {
    for a in SAMPLES {
        assert_eq!(at(a).text(), Path::new(a).to_string_lossy());
        assert_eq!(at(a).text(), Path::new(a).display().to_string());
    }
}

#[test]
fn bytes_that_are_no_text_are_replaced() {
    let path = BundlePath::new(b"bad\xffname".to_vec());
    assert_eq!(path.text(), "bad\u{fffd}name");
}

#[test]
fn separators_come_before_other_bytes() {
    assert!(at("a/b").at_most(&at("a.b")));
    assert!(!at("a.b").at_most(&at("a/b")));
}

#[test]
fn paths_with_the_same_components_tie() {
    assert!(at("a//b").at_most(&at("a/b")));
    assert!(at("a/b").at_most(&at("a//b")));
}

#[test]
fn extension_filter_compares_whole_extensions() {
    let cedar = Some("cedar".to_string());
    assert!(at("p/a.cedar").matches_extension(&cedar));
    assert!(at("p/a.b.cedar").matches_extension(&cedar));
    assert!(!at("p/a.cedar2").matches_extension(&cedar));
    assert!(!at("p/.cedar").matches_extension(&cedar));
    assert!(!at("p/cedar").matches_extension(&cedar));
    assert!(!at("p/a.CEDAR").matches_extension(&cedar));
    assert!(at("p/a.").matches_extension(&Some(String::new())));
    assert!(at("p/anything").matches_extension(&None));
}

fn sorted(texts: &[&str]) -> Vec<String> {
    sort_paths(texts.iter().map(|t| at(t)).collect())
        .iter()
        .map(|p| p.text())
        .collect()
}

#[test]
fn sorting_agrees_with_std() {
    let mut expected: Vec<_> = SAMPLES.iter().map(|s| Path::new(s).to_path_buf()).collect();
    expected.reverse();
    let reversed: Vec<&str> = SAMPLES.iter().rev().copied().collect();
    expected.sort();
    let texts: Vec<String> = expected.iter().map(|p| p.to_str().unwrap().to_string()).collect();
    assert_eq!(sorted(&reversed), texts);
}

#[test]
fn sorting_keeps_the_order_of_ties() {
    assert_eq!(sorted(&["b", "a//x", "a/x", "a/./x"]), ["a//x", "a/x", "a/./x", "b"]);
    assert_eq!(sorted(&["b", "a/./x", "a//x", "a/x"]), ["a/./x", "a//x", "a/x", "b"]);
}

#[test]
fn sorting_twice_changes_nothing() {
    let once = sorted(&SAMPLES);
    let again: Vec<&str> = once.iter().map(|s| s.as_str()).collect();
    assert_eq!(sorted(&again), once);
}

#[test]
fn sorting_parts_first_changes_nothing() {
    let front = sorted(&["c", "a/b", "a.b"]);
    let back = sorted(&["b", "a//b", "/z"]);
    let parts: Vec<&str> = front.iter().chain(back.iter()).map(|s| s.as_str()).collect();
    assert_eq!(sorted(&parts), sorted(&["c", "a/b", "a.b", "b", "a//b", "/z"]));
    assert_eq!(sorted(&parts), ["/z", "a/b", "a//b", "a.b", "b", "c"]);
}

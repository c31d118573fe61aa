use text_finder::appl::OutLine;
use text_finder::nav::{DirNav, TraversalError};
use text_finder::tree::{DirNode, FileNode};

fn file(name: &str, content: &[u8]) -> FileNode {
    FileNode { name: name.to_string(), content: Some(content.to_vec()) }
}

fn leaf_dir(name: &str, files: Vec<FileNode>) -> DirNode {
    DirNode { name: name.to_string(), files, subdirs: Vec::new() }
}

fn nav(pattern: &str, exts: &[&str], recurse: bool, hide: bool) -> DirNav {
    let mut dn = DirNav::new();
    dn.recurse(recurse);
    dn.app.recurse(recurse);
    dn.app.set_hide(hide);
    dn.app.regex(pattern);
    for e in exts {
        dn.add_pat(e);
    }
    dn
}

fn dir_lines(dn: &DirNav) -> Vec<String> {
    let mut v = Vec::new();
    for l in dn.app.out.iter() {
        if let OutLine::Dir(d) = l {
            v.push(d.clone());
        }
    }
    v
}

fn file_lines(dn: &DirNav) -> Vec<String> {
    let mut v = Vec::new();
    for l in dn.app.out.iter() {
        if let OutLine::File(f) = l {
            v.push(f.clone());
        }
    }
    v
}

#[test]
fn scenario_matching_file_is_reported() {
    // root/ holds a.txt "abcdefg" and b.txt "foobar"; pattern "bcd".
    let root = leaf_dir("root", vec![file("a.txt", b"abcdefg"), file("b.txt", b"foobar")]);
    let mut dn = nav("bcd", &["txt"], false, false);
    let r = dn.visit(Some(&root));
    assert!(r.is_ok());
    assert_eq!(dir_lines(&dn), vec!["root".to_string()]);
    assert_eq!(file_lines(&dn), vec!["a.txt".to_string()]);
    assert_eq!(dn.get_files(), 2);
    assert_eq!(dn.get_dirs(), 1);
}

#[test]
fn scenario_no_match_still_counts_files() {
    // Same tree, pattern "xyz": a header (hide off), no file lines.
    let root = leaf_dir("root", vec![file("a.txt", b"abcdefg"), file("b.txt", b"foobar")]);
    let mut dn = nav("xyz", &["txt"], false, false);
    let r = dn.visit(Some(&root));
    assert!(r.is_ok());
    assert_eq!(dir_lines(&dn), vec!["root".to_string()]);
    assert!(file_lines(&dn).is_empty());
    assert_eq!(dn.get_files(), 2);
    assert_eq!(dn.get_dirs(), 1);
}

#[test]
fn scenario_missing_root_is_invalid() {
    let mut dn = nav("abc", &["txt"], true, true);
    let r = dn.visit(None);
    assert!(matches!(r, Err(TraversalError::InvalidRoot)));
    assert_eq!(dn.get_files(), 0);
    assert_eq!(dn.get_dirs(), 0);
    assert!(dn.app.out.is_empty());
}

#[test]
fn no_recurse_skips_subdirectories() {
    // A matching file sits inside a subdirectory; recurse is off.
    let sub = leaf_dir("sub", vec![file("inner.txt", b"abc")]);
    let root = DirNode {
        name: "root".to_string(),
        files: vec![file("top.txt", b"abc")],
        subdirs: vec![sub],
    };
    let mut dn = nav("abc", &["txt"], false, false);
    dn.visit(Some(&root)).unwrap();
    assert_eq!(file_lines(&dn), vec!["top.txt".to_string()]);
    assert_eq!(dir_lines(&dn), vec!["root".to_string()]);
    assert_eq!(dn.get_dirs(), 1);
    assert_eq!(dn.get_files(), 1);
}

#[test]
fn recurse_visits_depth_first_with_joined_paths() {
    let sub = leaf_dir("sub", vec![file("inner.txt", b"abc")]);
    let root = DirNode {
        name: "root".to_string(),
        files: vec![file("top.txt", b"abc")],
        subdirs: vec![sub],
    };
    let mut dn = nav("abc", &["txt"], true, false);
    dn.visit(Some(&root)).unwrap();
    assert_eq!(dir_lines(&dn), vec!["root".to_string(), "root/sub".to_string()]);
    assert_eq!(file_lines(&dn), vec!["top.txt".to_string(), "inner.txt".to_string()]);
    assert_eq!(dn.get_dirs(), 2);
    assert_eq!(dn.get_files(), 2);
}

#[test]
fn hide_mode_emits_header_once_per_directory() {
    // Two matching files in one directory: one header, two file lines.
    let root = leaf_dir("root", vec![file("a.txt", b"abc"), file("b.txt", b"xabcx")]);
    let mut dn = nav("abc", &["txt"], false, true);
    dn.visit(Some(&root)).unwrap();
    assert_eq!(dir_lines(&dn), vec!["root".to_string()]);
    assert_eq!(file_lines(&dn), vec!["a.txt".to_string(), "b.txt".to_string()]);
}

#[test]
fn hide_mode_suppresses_empty_directories() {
    // The subdirectory has no matching file: it produces no output at all.
    let sub = leaf_dir("sub", vec![file("quiet.txt", b"nothing here")]);
    let root = DirNode {
        name: "root".to_string(),
        files: vec![file("loud.txt", b"abc")],
        subdirs: vec![sub],
    };
    let mut dn = nav("abc", &["txt"], true, true);
    dn.visit(Some(&root)).unwrap();
    assert_eq!(dir_lines(&dn), vec!["root".to_string()]);
    assert_eq!(file_lines(&dn), vec!["loud.txt".to_string()]);
    assert_eq!(dn.get_dirs(), 2);
    assert_eq!(dn.get_files(), 2);
}

#[test]
fn hide_mode_headers_come_before_their_matches() {
    // Matches only in the subdirectory: the root emits nothing, the
    // subdirectory's header comes right before its matching file.
    let sub = leaf_dir("sub", vec![file("inner.txt", b"abc")]);
    let root = DirNode { name: "root".to_string(), files: Vec::new(), subdirs: vec![sub] };
    let mut dn = nav("abc", &["txt"], true, true);
    dn.visit(Some(&root)).unwrap();
    assert_eq!(dn.app.out.len(), 2);
    assert!(matches!(&dn.app.out[0], OutLine::Dir(d) if d == "root/sub"));
    assert!(matches!(&dn.app.out[1], OutLine::File(f) if f == "inner.txt"));
}

#[test]
fn show_mode_reports_every_directory() {
    // Hide off: every visited directory gets a header, matches or not.
    let sub_a = leaf_dir("a", Vec::new());
    let sub_b = leaf_dir("b", vec![file("note.md", b"no pattern here")]);
    let root = DirNode {
        name: "root".to_string(),
        files: Vec::new(),
        subdirs: vec![sub_a, sub_b],
    };
    let mut dn = nav("abc", &["md"], true, false);
    dn.visit(Some(&root)).unwrap();
    assert_eq!(
        dir_lines(&dn),
        vec!["root".to_string(), "root/a".to_string(), "root/b".to_string()]
    );
    assert!(file_lines(&dn).is_empty());
    assert_eq!(dn.get_dirs(), 3);
    assert_eq!(dn.get_files(), 1);
}

#[test]
fn extension_filter_is_exact_and_case_sensitive() {
    let root = leaf_dir(
        "root",
        vec![
            file("match.txt", b"abc"),
            file("upper.TXT", b"abc"),
            file("noext", b"abc"),
            file("other.rs", b"abc"),
        ],
    );
    let mut dn = nav("abc", &["txt"], false, false);
    dn.visit(Some(&root)).unwrap();
    assert_eq!(file_lines(&dn), vec!["match.txt".to_string()]);
    assert_eq!(dn.get_files(), 1);
}

#[test]
fn empty_extension_pattern_selects_dotless_names() {
    let root = leaf_dir("root", vec![file("noext", b"abc"), file("has.txt", b"abc")]);
    let mut dn = nav("abc", &[""], false, false);
    dn.visit(Some(&root)).unwrap();
    assert_eq!(file_lines(&dn), vec!["noext".to_string()]);
}

#[test]
fn unreadable_file_is_counted_but_never_matches() {
    let bad = FileNode { name: "bad.txt".to_string(), content: None };
    let root = DirNode {
        name: "root".to_string(),
        files: vec![bad, file("good.txt", b"abc")],
        subdirs: Vec::new(),
    };
    let mut dn = nav("abc", &["txt"], false, true);
    dn.visit(Some(&root)).unwrap();
    assert_eq!(file_lines(&dn), vec!["good.txt".to_string()]);
    assert_eq!(dn.get_files(), 2);
}

#[test]
fn counters_reset_on_each_visit() {
    let root = leaf_dir("root", vec![file("a.txt", b"abc")]);
    let mut dn = nav("abc", &["txt"], false, false);
    dn.visit(Some(&root)).unwrap();
    dn.visit(Some(&root)).unwrap();
    assert_eq!(dn.get_dirs(), 1);
    assert_eq!(dn.get_files(), 1);
}

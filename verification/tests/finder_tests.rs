use text_finder::finder::TextFinder;
use text_finder::strings::{extension_of, join_path};

fn finder_with(pattern: &str) -> TextFinder {
    let mut tf = TextFinder::new();
    tf.regex(pattern);
    tf
}

#[test]
fn find_reports_a_match() {
    let tf = finder_with("bcd");
    let content = Some(b"abcdefg".to_vec());
    assert!(tf.find(&content));
}

#[test]
fn find_reports_no_match() {
    let tf = finder_with("bcd");
    let content = Some(b"foobar".to_vec());
    assert!(!tf.find(&content));
}

#[test]
fn find_is_stable_across_repeated_calls() {
    let tf = finder_with("bcd");
    let content = Some(b"abcdefg".to_vec());
    let first = tf.find(&content);
    let second = tf.find(&content);
    let third = tf.find(&content);
    assert_eq!(first, second);
    assert_eq!(second, third);
    assert!(first);
}

#[test]
fn find_tolerates_non_text_bytes() {
    let tf = finder_with("abc");
    let mut bytes = vec![0xffu8, 0xfe, 0x80];
    bytes.extend_from_slice(b"abc");
    bytes.push(0xff);
    let content = Some(bytes);
    assert!(tf.find(&content));
}

#[test]
fn find_non_text_bytes_without_match() {
    let tf = finder_with("zzz");
    let content = Some(vec![0xffu8, 0xfe, b'a', b'b', 0x80]);
    assert!(!tf.find(&content));
}

#[test]
fn find_unreadable_file_is_false() {
    let tf = finder_with("abc");
    let content: Option<Vec<u8>> = None;
    assert!(!tf.find(&content));
}

#[test]
fn find_invalid_pattern_never_matches() {
    let tf = finder_with("(");
    let content = Some(b"anything at all (".to_vec());
    assert!(!tf.find(&content));
}

#[test]
fn find_empty_pattern_matches_everything_readable() {
    let tf = finder_with("");
    assert!(tf.find(&Some(Vec::new())));
    assert!(tf.find(&Some(b"xyz".to_vec())));
    let missing: Option<Vec<u8>> = None;
    assert!(!tf.find(&missing));
}

#[test]
fn find_decodes_multibyte_text() {
    // The pattern holds a two-byte character: only a real UTF-8 decode of
    // the file bytes can match it.
    let tf = finder_with("héllo");
    let content = Some("say héllo twice".as_bytes().to_vec());
    assert!(tf.find(&content));
}

#[test]
fn find_uses_regex_alternation() {
    // "a|b" is an alternation, not a literal substring.
    let tf = finder_with("a|b");
    assert!(tf.find(&Some(b"zzb".to_vec())));
    assert!(!tf.find(&Some(b"zzz".to_vec())));
}

#[test]
fn regex_accessors_round_trip() {
    let mut tf = TextFinder::new();
    assert_eq!(tf.get_regex(), "");
    tf.regex("a|b");
    assert_eq!(tf.get_regex(), "a|b");
    tf.last_path("root/sub");
    assert_eq!(tf.get_last_path(), "root/sub");
}

#[test]
fn extension_after_last_dot() {
    assert_eq!(extension_of("a.txt"), "txt");
    assert_eq!(extension_of("archive.tar.gz"), "gz");
    assert_eq!(extension_of("Makefile"), "");
    assert_eq!(extension_of("trailing."), "");
    assert_eq!(extension_of(".bashrc"), "bashrc");
    assert_eq!(extension_of(""), "");
}

#[test]
fn join_path_uses_single_slash() {
    assert_eq!(join_path("root", "a.txt"), "root/a.txt");
    assert_eq!(join_path("root/sub", "b.rs"), "root/sub/b.rs");
}

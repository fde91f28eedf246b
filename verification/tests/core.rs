use focosx_store::codec::decode_node_id;
use focosx_store::codec::encode_node_id;
use focosx_store::paths::join_path;
use focosx_store::paths::make_child_rel;
use focosx_store::paths::segments_ok;
use focosx_store::paths::split_path;
use focosx_store::text::find_char;
use focosx_store::text::is_absolute_path;
use focosx_store::text::is_hidden_name;
use focosx_store::text::str_eq;
use focosx_store::text::str_has_suffix;
use focosx_store::text::str_lex_le;

#[test]
fn encode_then_decode_round_trips() {
    let id = encode_node_id("vault-1", "notes/todo.md");
    assert_eq!(id, "vault-1:notes/todo.md");
    let (vid, rel) = decode_node_id(&id).unwrap();
    assert_eq!(vid, "vault-1");
    assert_eq!(rel, "notes/todo.md");
}

#[test]
fn decode_splits_on_first_colon_only() {
    let (vid, rel) = decode_node_id("v:a:b.md").unwrap();
    assert_eq!(vid, "v");
    assert_eq!(rel, "a:b.md");
}

#[test]
fn decode_without_colon_is_opaque() {
    assert!(decode_node_id("legacy-node-7").is_none());
    assert!(decode_node_id("").is_none());
}

#[test]
fn decode_with_leading_colon_has_empty_vault() {
    let (vid, rel) = decode_node_id(":a.md").unwrap();
    assert_eq!(vid, "");
    assert_eq!(rel, "a.md");
}

#[test]
fn lexicographic_order_is_case_sensitive_by_code_point() {
    assert!(str_lex_le("Alpha", "alpha"));
    assert!(!str_lex_le("alpha", "Alpha"));
    assert!(str_lex_le("a", "ab"));
    assert!(!str_lex_le("ab", "a"));
    assert!(str_lex_le("same", "same"));
    assert!(str_lex_le("", "x"));
}

#[test]
fn string_equality_goes_by_characters() {
    assert!(str_eq("abc", "abc"));
    assert!(!str_eq("abc", "abd"));
    assert!(!str_eq("abc", "ab"));
    assert!(str_eq("", ""));
}

#[test]
fn suffix_test_matches_exact_tail() {
    assert!(str_has_suffix("board.canvas", ".canvas"));
    assert!(!str_has_suffix("board.canvasx", ".canvas"));
    assert!(!str_has_suffix("vas", ".canvas"));
    assert!(str_has_suffix("x", ""));
}

#[test]
fn find_char_returns_first_occurrence() {
    assert_eq!(find_char("a:b:c", ':'), Some(1));
    assert_eq!(find_char("abc", ':'), None);
}

#[test]
fn hidden_and_absolute_checks() {
    assert!(is_hidden_name(".git"));
    assert!(!is_hidden_name("notes"));
    assert!(!is_hidden_name(""));
    assert!(is_absolute_path("/tmp/v1"));
    assert!(!is_absolute_path("relative/dir"));
    assert!(!is_absolute_path(""));
}

#[test]
fn split_and_join_round_trip() {
    let segs = split_path("a/b/c.md");
    assert_eq!(segs, vec!["a", "b", "c.md"]);
    assert_eq!(join_path(&segs), "a/b/c.md");
    assert!(segments_ok(&segs));
}

#[test]
fn split_keeps_empty_segments() {
    let segs = split_path("a//b");
    assert_eq!(segs, vec!["a", "", "b"]);
    assert!(!segments_ok(&segs));
    assert_eq!(join_path(&segs), "a//b");
    assert_eq!(split_path(""), vec![""]);
}

#[test]
fn child_rel_joins_with_single_slash() {
    assert_eq!(make_child_rel("", "a.md"), "a.md");
    assert_eq!(make_child_rel("dir", "a.md"), "dir/a.md");
    assert_eq!(make_child_rel("dir/sub", "a.md"), "dir/sub/a.md");
}

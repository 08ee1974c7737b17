use std::path::PathBuf;

use parser_wasm::paths::{file_name, join_path, normalize_path, parent_dir, to_chars};

#[test]
fn normalize_resolves_dot_segments() {
    assert_eq!(normalize_path("/a/./b/../c"), "/a/c");
}

#[test]
fn normalize_drops_leading_parent_segment() {
    assert_eq!(normalize_path("../x"), "/x");
    assert_eq!(normalize_path("/../x"), "/x");
}

#[test]
fn normalize_is_idempotent_on_examples() {
    for p in ["", "/", "a", "/a//b/", "a/../../b/./c", "/x/y/z", "..", "./."] {
        let once = normalize_path(p);
        assert_eq!(normalize_path(&once), once);
    }
}

#[test]
fn normalize_of_nothing_is_the_root() {
    assert_eq!(normalize_path(""), "");
    assert_eq!(normalize_path("/"), "");
    assert_eq!(normalize_path("a/.."), "");
}

#[test]
fn join_follows_the_directory() {
    assert_eq!(join_path("/lib", "x.circom"), "/lib/x.circom");
    assert_eq!(join_path("/lib/", "x.circom"), "/lib/x.circom");
    assert_eq!(join_path("", "x.circom"), "x.circom");
    assert_eq!(join_path("/lib", "/abs/x"), "/abs/x");
}

#[test]
fn parent_and_file_name_split_at_the_last_slash() {
    assert_eq!(parent_dir("/a/b/c.circom"), "/a/b");
    assert_eq!(file_name("/a/b/c.circom"), "c.circom");
    assert_eq!(parent_dir("c.circom"), "");
    assert_eq!(file_name("c.circom"), "c.circom");
    assert_eq!(parent_dir("/c"), "");
    assert_eq!(file_name("/a/b/"), "");
}

#[test]
fn normalize_collapses_repeated_and_trailing_slashes() {
    assert_eq!(normalize_path("/a//b///c/"), "/a/b/c");
    assert_eq!(normalize_path("a/b"), "/a/b");
    assert_eq!(normalize_path("/a/b/../../../c"), "/c");
    assert_eq!(normalize_path("/a/.../b"), "/a/.../b");
    assert_eq!(normalize_path("/a/..b/.c"), "/a/..b/.c");
}

#[test]
fn normalize_keeps_characters_of_several_bytes() {
    assert_eq!(normalize_path("/ä/./ö/../ü.circom"), "/ä/ü.circom");
}

#[test]
fn normal_paths_are_fixed_points() {
    for p in ["", "/a", "/a/b/c.circom", "/lib/v2/gates.circom"] {
        assert_eq!(normalize_path(p), p);
    }
}

#[test]
fn rooted_paths_with_a_segment_left_are_cleaned_as_path_clean_does() {
    for p in ["/a/./b/../c", "/a//b///c/", "/../x", "/a/b/../../c", "/x/./y/./z", "/a/b/c"] {
        assert_eq!(PathBuf::from(normalize_path(p)), path_clean::clean(p));
    }
}

#[test]
fn join_of_an_empty_name_ends_in_a_slash() {
    assert_eq!(join_path("/lib", ""), "/lib/");
    assert_eq!(join_path("", ""), "");
}

#[test]
fn characters_come_out_in_order() {
    assert_eq!(to_chars("a/é"), vec!['a', '/', 'é']);
    assert!(to_chars("").is_empty());
}

use dumbsync::relpath::{normalize_separators, relative_key, relative_path};
use dumbsync::text::{chars_of, string_of};

#[test]
fn normalize_separators_writes_forward_slashes() {
    assert_eq!(normalize_separators("a\\b/c\\d.txt"), "a/b/c/d.txt");
    assert_eq!(normalize_separators("a/b.txt"), "a/b.txt");
    assert_eq!(normalize_separators(""), "");
}

#[test]
fn two_spellings_give_one_key() {
    assert_eq!(normalize_separators("a\\b\\c"), normalize_separators("a/b\\c"));
}

#[test]
fn relative_key_prefers_the_relative_path() {
    assert_eq!(relative_key("/root/a/b.txt", Some("a\\b.txt".to_string())), "a/b.txt");
    assert_eq!(relative_key("x\\y", None), "x/y");
}

#[test]
fn relative_path_is_taken_against_the_root() {
    assert_eq!(relative_path("/srv/tree/a/b.txt", "/srv/tree"), "a/b.txt");
    assert_eq!(relative_path("tree/c.txt", "tree"), "c.txt");
}

#[test]
fn relative_path_falls_back_to_the_path_itself() {
    assert_eq!(relative_path("a/b.txt", "/srv/tree"), "a/b.txt");
}

#[test]
fn chars_of_and_string_of_agree() {
    let chars = chars_of("héllo");
    assert_eq!(chars, vec!['h', 'é', 'l', 'l', 'o']);
    assert_eq!(string_of(&chars, 1, 4), "éll");
    assert_eq!(string_of(&chars, 2, 2), "");
}

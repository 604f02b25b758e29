use dumbsync::location::{
    base_location, file_location, manifest_location, normalize_base, LocationError, MANIFEST_NAME,
};

#[test]
fn normalize_base_adds_a_missing_slash() {
    assert_eq!(normalize_base("http://example.com/files"), "http://example.com/files/");
    assert_eq!(normalize_base(""), "/");
}

#[test]
fn normalize_base_keeps_a_slash_that_is_there() {
    assert_eq!(normalize_base("http://example.com/files/"), "http://example.com/files/");
    assert_eq!(normalize_base("/"), "/");
}

#[test]
fn base_location_parses_the_normalized_url() {
    assert_eq!(base_location("http://example.com/files"), Ok("http://example.com/files/".to_string()));
    assert_eq!(base_location("HTTP://Example.COM"), Ok("http://example.com/".to_string()));
}

#[test]
fn base_location_rejects_what_is_no_url() {
    assert_eq!(base_location("not a url"), Err(LocationError::MalformedBase));
    assert_eq!(base_location(""), Err(LocationError::MalformedBase));
}

#[test]
fn file_location_resolves_below_the_base() {
    assert_eq!(
        file_location("http://example.com/files/", "a/b.txt"),
        Ok("http://example.com/files/a/b.txt".to_string())
    );
}

#[test]
fn file_location_fails_where_the_path_cannot_be_resolved() {
    assert_eq!(file_location("http://example.com/files/", "//[broken"), Err(LocationError::JoinFailed));
    assert_eq!(file_location("no base", "a.txt"), Err(LocationError::JoinFailed));
}

#[test]
fn manifest_location_is_the_manifest_name_below_the_base() {
    assert_eq!(MANIFEST_NAME, ".dumbsync");
    assert_eq!(
        manifest_location("http://example.com/files/"),
        Ok("http://example.com/files/.dumbsync".to_string())
    );
}

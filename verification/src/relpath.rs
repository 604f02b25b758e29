//! Relative paths: the keys under which files are published and compared.
//!
//! A key is a file's path relative to the synchronisation root, written with
//! forward slashes only: a backslash is taken for a separator and written as
//! a forward slash, so that two spellings of one path give one key.
use vstd::prelude::*;
use crate::text::{chars_of, push_char};

verus! {

/// `pathdiff::diff_paths`, on paths given as text and with the relative path
/// handed back as text. Not proved: that what it finds, and whether it finds
/// anything, depends on the two texts alone.
#[verifier::external_body]
fn diff_paths(path: &str, base: &str) -> (r: Option<String>)
    ensures
        text_option(r) == path_diff(path@, base@),
{
    match pathdiff::diff_paths(path, base) {
        Some(p) => Some(p.to_string_lossy().into_owned()),
        None => None,
    }
}

/// The separator that keys are written with, for either separator.
pub open spec fn canonical(c: char) -> char {
    if c == '\\' {
        '/'
    } else {
        c
    }
}

/// `path` with each backslash written as a forward slash.
pub open spec fn forward_slashes(path: Seq<char>) -> Seq<char> {
    Seq::new(path.len(), |i: int| canonical(path[i]))
}

/// Whether `path` is written as keys are: without a backslash.
pub open spec fn is_key(path: Seq<char>) -> bool {
    forall|i: int| 0 <= i < path.len() ==> #[trigger] path[i] != '\\'
}

/// Whether `a` and `b` spell one path: they differ at most in which
/// separator stands where.
pub open spec fn same_spelling(a: Seq<char>, b: Seq<char>) -> bool {
    a.len() == b.len() && forall|i: int|
        0 <= i < a.len() ==> canonical(#[trigger] a[i]) == canonical(b[i])
}

/// Two spellings of one path give one key.
pub proof fn lemma_one_key(a: Seq<char>, b: Seq<char>)
    requires
        same_spelling(a, b),
    ensures
        forward_slashes(a) == forward_slashes(b),
{
    assert(forward_slashes(a) =~= forward_slashes(b));
}

/// A key is written as keys are, and writing a key again changes nothing.
pub proof fn lemma_key_stable(path: Seq<char>)
    ensures
        is_key(forward_slashes(path)),
        forward_slashes(forward_slashes(path)) == forward_slashes(path),
        is_key(path) ==> forward_slashes(path) == path,
{
    assert(forward_slashes(forward_slashes(path)) =~= forward_slashes(path));
    if is_key(path) {
        assert(forward_slashes(path) =~= path);
    }
}

/// Writes `path` with forward slashes only.
pub fn normalize_separators(path: &str) -> (key: String)
    ensures
        key@ == forward_slashes(path@),
{
    let chars = chars_of(path);
    let mut key = String::new();
    let mut i: usize = 0;
    while i < chars.len()
        invariant
            i <= chars.len(),
            chars@ == path@,
            key@ == forward_slashes(path@.take(i as int)),
        decreases chars.len() - i,
    {
        let c = if chars[i] == '\\' {
            '/'
        } else {
            chars[i]
        };
        push_char(&mut key, c);
        i += 1;
        assert(key@ =~= forward_slashes(path@.take(i as int)));
    }
    assert(path@.take(i as int) =~= path@);
    key
}

/// The text that a file's key is made from: its path relative to the root
/// where one was found, else the path as it was given.
pub open spec fn key_source(raw: Seq<char>, relative: Option<Seq<char>>) -> Seq<char> {
    match relative {
        Some(p) => p,
        None => raw,
    }
}

/// An optional text, by the text's view.
pub open spec fn text_option(text: Option<String>) -> Option<Seq<char>> {
    match text {
        Some(p) => Some(p@),
        None => None,
    }
}

/// The key for a file, given its path and, where one was found, its path
/// relative to the root.
pub fn relative_key(raw: &str, relative: Option<String>) -> (key: String)
    ensures
        key@ == forward_slashes(key_source(raw@, text_option(relative))),
{
    match relative {
        Some(p) => normalize_separators(p.as_str()),
        None => normalize_separators(raw),
    }
}

/// The key for the file at `raw` in the tree under `root`: its path from the
/// root where one is found, else `raw` itself, written as keys are.
pub fn relative_path(raw: &str, root: &str) -> (key: String)
    ensures
        key@ == forward_slashes(key_source(raw@, path_diff(raw@, root@))),
        is_key(key@),
{
    let relative = diff_paths(raw, root);
    let ghost source = key_source(raw@, text_option(relative));
    let key = relative_key(raw, relative);
    proof {
        lemma_key_stable(source);
    }
    key
}

/// The path that leads from `base` to `path`, as `pathdiff::diff_paths`
/// finds it, or `None` where it finds none. Both paths are read as the
/// platform that the library is built for reads paths; nothing else enters.
pub uninterp spec fn path_diff(path: Seq<char>, base: Seq<char>) -> Option<Seq<char>>;

} // verus!

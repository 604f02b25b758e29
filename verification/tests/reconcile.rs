use dumbsync::digest::entry_for;
use dumbsync::manifest::{generate, parse_manifest, ManifestEntry};
use dumbsync::reconcile::{aggregate, DumbItem, ReconciledItem};

fn entry(digest: &str, path: &str) -> ManifestEntry {
    ManifestEntry { digest: digest.to_string(), path: path.to_string() }
}

fn item(path: &str, status: DumbItem) -> ReconciledItem {
    ReconciledItem { path: path.to_string(), status }
}

#[test]
fn aggregate_classifies_the_example_tree() {
    let remote = parse_manifest("aaaa a/b.txt\nbbbb c.txt\n");
    let local = vec![entry("aaaa", "a/b.txt"), entry("dddd", "d.txt")];
    let r = aggregate(&local, &remote);
    assert_eq!(
        r.items,
        vec![
            item("a/b.txt", DumbItem::Uptodate),
            item("c.txt", DumbItem::Remote),
            item("d.txt", DumbItem::Local),
        ]
    );
}

#[test]
fn aggregate_finds_a_changed_file_outdated() {
    let remote = vec![entry("aaaa", "a.txt")];
    let local = vec![entry("bbbb", "a.txt")];
    assert_eq!(aggregate(&local, &remote).items, vec![item("a.txt", DumbItem::Outdated)]);
}

#[test]
fn aggregate_lists_each_path_once() {
    let remote = vec![entry("1", "a"), entry("2", "b"), entry("3", "a")];
    let local = vec![entry("3", "a"), entry("9", "z"), entry("8", "z")];
    let r = aggregate(&local, &remote);
    assert_eq!(
        r.items,
        vec![
            item("b", DumbItem::Remote),
            item("a", DumbItem::Uptodate),
            item("z", DumbItem::Local),
        ]
    );
}

#[test]
fn aggregate_lets_the_last_line_of_a_path_count() {
    let remote = vec![entry("old", "a"), entry("new", "a")];
    assert_eq!(aggregate(&vec![entry("new", "a")], &remote).items, vec![item("a", DumbItem::Uptodate)]);
    assert_eq!(aggregate(&vec![entry("old", "a")], &remote).items, vec![item("a", DumbItem::Outdated)]);
}

#[test]
fn aggregate_of_empty_sides() {
    assert_eq!(aggregate(&Vec::new(), &Vec::new()).items, Vec::new());
    assert_eq!(aggregate(&vec![entry("1", "a")], &Vec::new()).items, vec![item("a", DumbItem::Local)]);
    assert_eq!(aggregate(&Vec::new(), &vec![entry("1", "a")]).items, vec![item("a", DumbItem::Remote)]);
}

#[test]
fn aggregate_covers_both_sides() {
    let remote = vec![entry("1", "a"), entry("2", "b")];
    let local = vec![entry("2", "b"), entry("3", "c")];
    let mut paths: Vec<String> = aggregate(&local, &remote).items.into_iter().map(|i| i.path).collect();
    paths.sort();
    assert_eq!(paths, vec!["a".to_string(), "b".to_string(), "c".to_string()]);
}

#[test]
fn a_published_tree_is_up_to_date_against_its_own_manifest() {
    let local = vec![
        entry_for("a/b.txt".to_string(), b"first"),
        entry_for("c.txt".to_string(), b"second"),
    ];
    let remote = parse_manifest(&generate(&local));
    let r = aggregate(&local, &remote);
    assert_eq!(r.items, vec![item("a/b.txt", DumbItem::Uptodate), item("c.txt", DumbItem::Uptodate)]);
}

#[test]
fn a_changed_file_is_outdated_against_the_manifest() {
    let published = vec![entry_for("a.txt".to_string(), b"first")];
    let remote = parse_manifest(&generate(&published));
    let local = vec![entry_for("a.txt".to_string(), b"changed")];
    assert_eq!(aggregate(&local, &remote).items, vec![item("a.txt", DumbItem::Outdated)]);
}

#[test]
fn get_looks_a_path_up() {
    let r = aggregate(&vec![entry("1", "a"), entry("2", "b")], &vec![entry("1", "a"), entry("3", "c")]);
    assert_eq!(r.get(&"a".to_string()), Some(DumbItem::Uptodate));
    assert_eq!(r.get(&"b".to_string()), Some(DumbItem::Local));
    assert_eq!(r.get(&"c".to_string()), Some(DumbItem::Remote));
    assert_eq!(r.get(&"d".to_string()), None);
}

#[test]
fn the_entry_points_are_found_at_the_root() {
    let r = dumbsync::aggregate(&Vec::new(), &vec![entry("1", "a")]);
    assert_eq!(r.items, vec![item("a", dumbsync::DumbItem::Remote)]);
    assert_eq!(dumbsync::generate(&vec![entry("1", "a")]), "1 a\n");
    assert!(dumbsync::download("http://example.com", &r, false).is_ok());
}

use dumbsync::executor::{decide, download, process_item, Action, Decision};
use dumbsync::location::LocationError;
use dumbsync::reconcile::{DumbItem, ReconciledItem, Reconciliation};

fn item(path: &str, status: DumbItem) -> ReconciledItem {
    ReconciledItem { path: path.to_string(), status }
}

fn action(path: &str, decision: Decision, url: Option<&str>) -> Action {
    Action { path: path.to_string(), decision, url: url.map(|u| u.to_string()) }
}

#[test]
fn decide_covers_every_state() {
    assert_eq!(decide(DumbItem::Uptodate, false), Decision::Report);
    assert_eq!(decide(DumbItem::Uptodate, true), Decision::Report);
    assert_eq!(decide(DumbItem::Local, false), Decision::Keep);
    assert_eq!(decide(DumbItem::Local, true), Decision::Purge);
    assert_eq!(decide(DumbItem::Remote, false), Decision::Fetch);
    assert_eq!(decide(DumbItem::Remote, true), Decision::Fetch);
    assert_eq!(decide(DumbItem::Outdated, false), Decision::Fetch);
    assert_eq!(decide(DumbItem::Outdated, true), Decision::Fetch);
}

#[test]
fn process_item_resolves_a_fetch() {
    let r = process_item(&"a/b.txt".to_string(), DumbItem::Remote, "http://example.com/files/", false);
    assert_eq!(r, Ok(action("a/b.txt", Decision::Fetch, Some("http://example.com/files/a/b.txt"))));
}

#[test]
fn process_item_needs_no_location_but_for_a_fetch() {
    let r = process_item(&"//[broken".to_string(), DumbItem::Local, "no base", true);
    assert_eq!(r, Ok(action("//[broken", Decision::Purge, None)));
    let r = process_item(&"//[broken".to_string(), DumbItem::Outdated, "http://example.com/", true);
    assert_eq!(r, Err(LocationError::JoinFailed));
}

#[test]
fn download_plans_the_example_tree_with_purge() {
    let aggregated = Reconciliation {
        items: vec![
            item("a/b.txt", DumbItem::Uptodate),
            item("c.txt", DumbItem::Remote),
            item("d.txt", DumbItem::Local),
        ],
    };
    assert_eq!(
        download("http://example.com/files", &aggregated, true),
        Ok(vec![
            action("a/b.txt", Decision::Report, None),
            action("c.txt", Decision::Fetch, Some("http://example.com/files/c.txt")),
            action("d.txt", Decision::Purge, None),
        ])
    );
}

#[test]
fn download_without_purge_keeps_local_files() {
    let aggregated = Reconciliation {
        items: vec![item("d.txt", DumbItem::Local), item("e.txt", DumbItem::Outdated)],
    };
    assert_eq!(
        download("http://example.com/files/", &aggregated, false),
        Ok(vec![
            action("d.txt", Decision::Keep, None),
            action("e.txt", Decision::Fetch, Some("http://example.com/files/e.txt")),
        ])
    );
}

#[test]
fn download_of_a_converged_tree_fetches_nothing() {
    let aggregated = Reconciliation {
        items: vec![item("a/b.txt", DumbItem::Uptodate), item("c.txt", DumbItem::Uptodate)],
    };
    let actions = download("http://example.com/files", &aggregated, true).unwrap();
    assert!(actions.iter().all(|a| a.decision == Decision::Report && a.url.is_none()));
}

#[test]
fn download_rejects_a_malformed_base() {
    let aggregated = Reconciliation { items: Vec::new() };
    assert_eq!(download("not a url", &aggregated, false), Err(LocationError::MalformedBase));
}

#[test]
fn download_stops_at_a_path_that_cannot_be_resolved() {
    let aggregated = Reconciliation {
        items: vec![item("a.txt", DumbItem::Remote), item("//[broken", DumbItem::Remote)],
    };
    assert_eq!(download("http://example.com/", &aggregated, false), Err(LocationError::JoinFailed));
}

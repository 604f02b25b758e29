//! The sync executor's decisions: what is to be done for each classified
//! path. Each path is decided on its own; carrying the actions out is left
//! to the caller.
use vstd::prelude::*;
use crate::location::{
    base_location, file_location, url_joined, url_parsed, with_trailing_slash, LocationError,
};
use crate::manifest::{
    digest_of, has_path, lemma_last_index, lemma_last_index_concat, EntryView,
};
use crate::reconcile::{classify, DumbItem, ReconciledItem, Reconciliation};

verus! {

/// What is done for one path.
#[derive(Copy, Clone, Debug, PartialEq, Eq, Structural)]
pub enum Decision {
    /// The file is as published: it is reported and left alone.
    Report,
    /// The file is not published, and stays.
    Keep,
    /// The file is not published, and is deleted.
    Purge,
    /// The file is fetched and written, over what is there.
    Fetch,
}

/// The decision for a path in state `item`.
pub open spec fn decision(item: DumbItem, purge: bool) -> Decision {
    match item {
        DumbItem::Uptodate => Decision::Report,
        DumbItem::Local => if purge {
            Decision::Purge
        } else {
            Decision::Keep
        },
        DumbItem::Remote => Decision::Fetch,
        DumbItem::Outdated => Decision::Fetch,
    }
}

/// Decides what is done for a path in state `item`.
pub fn decide(item: DumbItem, purge: bool) -> (d: Decision)
    ensures
        d == decision(item, purge),
{
    match item {
        DumbItem::Uptodate => Decision::Report,
        DumbItem::Local => {
            if purge {
                Decision::Purge
            } else {
                Decision::Keep
            }
        },
        DumbItem::Remote => Decision::Fetch,
        DumbItem::Outdated => Decision::Fetch,
    }
}

/// A file is deleted only where purging is on and only the local tree has
/// it; a file is written only where the manifest has it and the local tree
/// has it not, or not with that digest.
pub proof fn lemma_purge_semantics(item: DumbItem, purge: bool)
    ensures
        decision(item, purge) == Decision::Purge <==> purge && item == DumbItem::Local,
        decision(item, purge) == Decision::Fetch <==> item == DumbItem::Remote || item
            == DumbItem::Outdated,
{
}

/// Once the local tree holds every published file with its published
/// digest, nothing is left to fetch: each published path is up to date, and
/// no path at all is decided as a fetch.
pub proof fn lemma_converged(local: Seq<EntryView>, remote: Seq<EntryView>, purge: bool)
    requires
        forall|p: Seq<char>|
            has_path(remote, p) ==> #[trigger] digest_of(local, p) == digest_of(remote, p),
    ensures
        forall|p: Seq<char>|
            has_path(remote, p) ==> #[trigger] classify(local, remote, p) == Some(
                DumbItem::Uptodate,
            ),
        forall|p: Seq<char>|
            (#[trigger] classify(local, remote, p)) is Some ==> decision(
                classify(local, remote, p)->0,
                purge,
            ) != Decision::Fetch,
{
    assert forall|p: Seq<char>| has_path(remote, p) implies #[trigger] classify(local, remote, p)
        == Some(DumbItem::Uptodate) by {
        lemma_last_index(remote, p);
        assert(digest_of(local, p) == digest_of(remote, p));
    }
    assert forall|p: Seq<char>| (#[trigger] classify(local, remote, p)) is Some implies decision(
        classify(local, remote, p)->0,
        purge,
    ) != Decision::Fetch by {
        lemma_last_index(remote, p);
        if has_path(remote, p) {
            assert(classify(local, remote, p) == Some(DumbItem::Uptodate));
        }
    }
}

/// One path with its decision and, for a fetch, the location to fetch from.
#[derive(Debug, PartialEq, Eq)]
pub struct Action {
    pub path: String,
    pub decision: Decision,
    pub url: Option<String>,
}

/// Whether `action` is the one for `path` in state `item` under `base`: it
/// names the path and its decision, and holds a location exactly for a
/// fetch, namely that of the path under the base.
pub open spec fn is_action_for(
    action: Action,
    path: Seq<char>,
    item: DumbItem,
    base: Seq<char>,
    purge: bool,
) -> bool {
    &&& action.path@ == path
    &&& action.decision == decision(item, purge)
    &&& match action.url {
        Some(u) => action.decision == Decision::Fetch && url_joined(base, path) == Some(u@),
        None => action.decision != Decision::Fetch,
    }
}

/// The local tree once the actions have been carried out, where every
/// fetch delivered the published content: the files that were there, less
/// those that a purge deleted, with the published files over them.
pub open spec fn synced(local: Seq<EntryView>, remote: Seq<EntryView>, purge: bool) -> Seq<
    EntryView,
> {
    if purge {
        remote
    } else {
        local + remote
    }
}

/// A second run against the same manifest finds every published file up to
/// date and fetches nothing; after a purge it finds no other file at all.
pub proof fn lemma_second_run(
    local: Seq<EntryView>,
    remote: Seq<EntryView>,
    purge: bool,
    again: bool,
    path: Seq<char>,
)
    ensures
        has_path(remote, path) ==> classify(synced(local, remote, purge), remote, path) == Some(
            DumbItem::Uptodate,
        ),
        purge && !has_path(remote, path) ==> classify(synced(local, remote, purge), remote, path)
            is None,
        classify(synced(local, remote, purge), remote, path) is Some ==> decision(
            classify(synced(local, remote, purge), remote, path)->0,
            again,
        ) != Decision::Fetch,
{
    lemma_last_index(remote, path);
    lemma_last_index_concat(local, remote, path);
}

/// In a plan, a path is deleted exactly where purging is on and only the
/// local tree has it, and it has a location to fetch from exactly where the
/// manifest has it and the local tree has it not, or not with that digest.
pub proof fn lemma_action_semantics(
    action: Action,
    path: Seq<char>,
    item: DumbItem,
    base: Seq<char>,
    purge: bool,
)
    requires
        is_action_for(action, path, item, base, purge),
    ensures
        action.decision == Decision::Purge <==> purge && item == DumbItem::Local,
        action.url is Some <==> item == DumbItem::Remote || item == DumbItem::Outdated,
        !purge ==> action.decision != Decision::Purge,
{
}

/// Whether the path of `item` is to be fetched and has no location under
/// `base`.
pub open spec fn fetch_fails(item: ReconciledItem, base: Seq<char>, purge: bool) -> bool {
    decision(item.status, purge) == Decision::Fetch && url_joined(base, item.path@) is None
}

/// The action for one path. It fails only for a path that is to be fetched
/// and cannot be resolved against the base.
pub fn process_item(path: &String, item: DumbItem, base: &str, purge: bool) -> (r: Result<
    Action,
    LocationError,
>)
    ensures
        match r {
            Ok(action) => is_action_for(action, path@, item, base@, purge),
            Err(e) => e == LocationError::JoinFailed && decision(item, purge) == Decision::Fetch
                && url_joined(base@, path@) is None,
        },
{
    let d = decide(item, purge);
    match d {
        Decision::Fetch => {
            match file_location(base, path.as_str()) {
                Ok(url) => Ok(Action { path: path.clone(), decision: d, url: Some(url) }),
                Err(e) => Err(e),
            }
        },
        _ => Ok(Action { path: path.clone(), decision: d, url: None }),
    }
}

/// The actions that bring the local tree in line with the published one, in
/// the order of `aggregated`. With `purge`, files that are not published are
/// deleted. The first path that cannot be resolved ends the planning.
pub fn download(url: &str, aggregated: &Reconciliation, purge: bool) -> (r: Result<
    Vec<Action>,
    LocationError,
>)
    ensures
        match r {
            Ok(actions) => {
                &&& url_parsed(with_trailing_slash(url@)) is Some
                &&& actions.len() == aggregated.items.len()
                &&& forall|i: int|
                    0 <= i < actions.len() ==> is_action_for(
                        #[trigger] actions@[i],
                        aggregated.items@[i].path@,
                        aggregated.items@[i].status,
                        url_parsed(with_trailing_slash(url@))->0,
                        purge,
                    )
            },
            Err(LocationError::MalformedBase) => url_parsed(with_trailing_slash(url@)) is None,
            Err(LocationError::JoinFailed) => {
                &&& url_parsed(with_trailing_slash(url@)) is Some
                &&& exists|i: int|
                    0 <= i < aggregated.items.len() && fetch_fails(
                        #[trigger] aggregated.items@[i],
                        url_parsed(with_trailing_slash(url@))->0,
                        purge,
                    )
            },
        },
{
    let base = match base_location(url) {
        Ok(base) => base,
        Err(e) => {
            return Err(e);
        },
    };
    let mut actions: Vec<Action> = Vec::new();
    let mut i: usize = 0;
    while i < aggregated.items.len()
        invariant
            i <= aggregated.items.len(),
            actions.len() == i,
            url_parsed(with_trailing_slash(url@)) == Some(base@),
            forall|k: int|
                0 <= k < i ==> is_action_for(
                    #[trigger] actions@[k],
                    aggregated.items@[k].path@,
                    aggregated.items@[k].status,
                    base@,
                    purge,
                ),
        decreases aggregated.items.len() - i,
    {
        let item = &aggregated.items[i];
        match process_item(&item.path, item.status, base.as_str(), purge) {
            Ok(action) => {
                actions.push(action);
            },
            Err(e) => {
                assert(fetch_fails(aggregated.items@[i as int], base@, purge));
                return Err(e);
            },
        }
        i += 1;
    }
    Ok(actions)
}

} // verus!

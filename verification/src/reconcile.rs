//! Reconciliation: every path of the local tree and of the published
//! manifest is put in one of four states.
use vstd::prelude::*;
use crate::manifest::{
    digest_of, find_entry, has_path, last_index, lemma_last_index, lemma_parse_render, parse,
    render, renderable, views, EntryView, ManifestEntry,
};

verus! {

/// The state of one path.
#[derive(Copy, Clone, Debug, PartialEq, Eq, Structural)]
pub enum DumbItem {
    /// Only the local tree has the file.
    Local,
    /// Only the manifest has the file.
    Remote,
    /// Both have it, with the same digest.
    Uptodate,
    /// Both have it, with different digests.
    Outdated,
}

/// The state of `path`, given the entries of the local tree and those of
/// the manifest; `None` for a path that neither holds.
pub open spec fn classify(local: Seq<EntryView>, remote: Seq<EntryView>, path: Seq<char>) -> Option<
    DumbItem,
> {
    match (digest_of(local, path), digest_of(remote, path)) {
        (Some(l), Some(r)) => Some(
            if l == r {
                DumbItem::Uptodate
            } else {
                DumbItem::Outdated
            },
        ),
        (Some(_), None) => Some(DumbItem::Local),
        (None, Some(_)) => Some(DumbItem::Remote),
        (None, None) => None,
    }
}

/// The states of all paths that the local tree or the manifest holds.
pub open spec fn reconciled(local: Seq<EntryView>, remote: Seq<EntryView>) -> Map<
    Seq<char>,
    DumbItem,
> {
    Map::new(
        |p: Seq<char>| classify(local, remote, p) is Some,
        |p: Seq<char>| classify(local, remote, p)->0,
    )
}

/// The paths that `entries` hold.
pub open spec fn paths(entries: Seq<EntryView>) -> Set<Seq<char>> {
    Set::new(|p: Seq<char>| has_path(entries, p))
}

/// The reconciliation covers the paths of the local tree and those of the
/// manifest, and no others.
pub proof fn lemma_exhaustive(local: Seq<EntryView>, remote: Seq<EntryView>)
    ensures
        reconciled(local, remote).dom() == paths(local).union(paths(remote)),
{
    assert forall|p: Seq<char>|
        reconciled(local, remote).dom().contains(p) <==> paths(local).union(
            paths(remote),
        ).contains(p) by {
        lemma_last_index(local, p);
        lemma_last_index(remote, p);
    }
    assert(reconciled(local, remote).dom() =~= paths(local).union(paths(remote)));
}

/// A path that both sides hold is up to date where the digests agree and
/// outdated where they differ; a path that one side holds is local or
/// remote, after that side; a path that neither holds has no state.
pub proof fn lemma_classification(local: Seq<EntryView>, remote: Seq<EntryView>, path: Seq<char>)
    ensures
        has_path(local, path) && has_path(remote, path) ==> classify(local, remote, path) == Some(
            if digest_of(local, path) == digest_of(remote, path) {
                DumbItem::Uptodate
            } else {
                DumbItem::Outdated
            },
        ),
        has_path(local, path) && !has_path(remote, path) ==> classify(local, remote, path) == Some(
            DumbItem::Local,
        ),
        !has_path(local, path) && has_path(remote, path) ==> classify(local, remote, path) == Some(
            DumbItem::Remote,
        ),
        !has_path(local, path) && !has_path(remote, path) ==> classify(local, remote, path)
            is None,
{
    lemma_last_index(local, path);
    lemma_last_index(remote, path);
}

/// A tree reconciled against the manifest that was rendered from it is up
/// to date in every file: what was published is found again, digest for
/// digest.
pub proof fn lemma_published_is_uptodate(entries: Seq<EntryView>, path: Seq<char>)
    requires
        forall|i: int| 0 <= i < entries.len() ==> renderable(#[trigger] entries[i]),
        has_path(entries, path),
    ensures
        classify(entries, parse(render(entries)), path) == Some(DumbItem::Uptodate),
{
    lemma_parse_render(entries);
    lemma_last_index(entries, path);
}

/// One path with its state.
#[derive(Debug, PartialEq, Eq)]
pub struct ReconciledItem {
    pub path: String,
    pub status: DumbItem,
}

/// Whether `items` lists `path`.
pub open spec fn listed(items: Seq<ReconciledItem>, path: Seq<char>) -> bool {
    exists|a: int| 0 <= a < items.len() && (#[trigger] items[a]).path@ == path
}

/// No two of `items` have the same path.
pub open spec fn distinct_paths(items: Seq<ReconciledItem>) -> bool {
    forall|a: int, b: int|
        0 <= a < b < items.len() ==> (#[trigger] items[a]).path@ != (#[trigger] items[b]).path@
}

/// The outcome of a reconciliation: each path once, with its state.
#[derive(Debug, PartialEq, Eq)]
pub struct Reconciliation {
    pub items: Vec<ReconciledItem>,
}

impl Reconciliation {
    /// Each path is listed once.
    pub open spec fn wf(&self) -> bool {
        distinct_paths(self.items@)
    }

    /// The state of `path`, if it is listed.
    pub fn get(&self, path: &String) -> (status: Option<DumbItem>)
        requires
            self.wf(),
        ensures
            status == (if self@.dom().contains(path@) {
                Some(self@[path@])
            } else {
                None
            }),
    {
        let mut i: usize = 0;
        while i < self.items.len()
            invariant
                self.wf(),
                i <= self.items.len(),
                forall|a: int| 0 <= a < i ==> (#[trigger] self.items@[a]).path@ != path@,
            decreases self.items.len() - i,
        {
            if self.items[i].path == *path {
                proof {
                    assert(self.items@[i as int].path@ == path@);
                    let a = choose|a: int|
                        0 <= a < self.items@.len() && (#[trigger] self.items@[a]).path@ == path@;
                    assert(a == i);
                }
                return Some(self.items[i].status);
            }
            i += 1;
        }
        None
    }
}

impl View for Reconciliation {
    type V = Map<Seq<char>, DumbItem>;

    open spec fn view(&self) -> Map<Seq<char>, DumbItem> {
        Map::new(
            |p: Seq<char>| listed(self.items@, p),
            |p: Seq<char>|
                self.items@[choose|a: int|
                    0 <= a < self.items@.len() && (#[trigger] self.items@[a]).path@ == p].status,
        )
    }
}

/// Classifies every path of `local` and `remote`: each path that either side
/// holds is listed once, with its state. A digest of `local` is read only
/// for a path that `remote` holds too. The order of the items is no part of
/// the contract.
pub fn aggregate(local: &Vec<ManifestEntry>, remote: &Vec<ManifestEntry>) -> (r: Reconciliation)
    ensures
        r.wf(),
        r@ == reconciled(views(local@), views(remote@)),
        r@.dom() == paths(views(local@)).union(paths(views(remote@))),
{
    let ghost l = views(local@);
    let ghost rm = views(remote@);
    let mut items: Vec<ReconciledItem> = Vec::new();
    let mut i: usize = 0;
    while i < remote.len()
        invariant
            i <= remote.len(),
            l == views(local@),
            rm == views(remote@),
            distinct_paths(items@),
            forall|a: int|
                0 <= a < items.len() ==> 0 <= last_index(rm, (#[trigger] items@[a]).path@) < i
                    && Some(items@[a].status) == classify(l, rm, items@[a].path@),
            forall|p: Seq<char>| 0 <= #[trigger] last_index(rm, p) < i ==> listed(items@, p),
        decreases remote.len() - i,
    {
        let ghost before = items@;
        let ghost path = rm[i as int].path;
        proof {
            lemma_last_index(rm, path);
            lemma_last_index(l, path);
        }
        let last = find_entry(remote, &remote[i].path);
        if last == Some(i) {
            let status = match find_entry(local, &remote[i].path) {
                Some(k) => {
                    if local[k].digest == remote[i].digest {
                        DumbItem::Uptodate
                    } else {
                        DumbItem::Outdated
                    }
                },
                None => DumbItem::Remote,
            };
            items.push(ReconciledItem { path: remote[i].path.clone(), status });
            proof {
                assert(items@[before.len() as int].path@ == path);
                assert forall|a: int, b: int| 0 <= a < b < items@.len() implies (
                #[trigger] items@[a]).path@ != (#[trigger] items@[b]).path@ by {
                    assert(items@[a] == before[a]);
                    if b < before.len() {
                        assert(items@[b] == before[b]);
                    }
                }
            }
        }
        proof {
            assert forall|p: Seq<char>| 0 <= #[trigger] last_index(rm, p) < i + 1 implies listed(
                items@,
                p,
            ) by {
                lemma_last_index(rm, p);
                if last_index(rm, p) < i {
                    let a = choose|a: int| 0 <= a < before.len() && (#[trigger] before[a]).path@ == p;
                    assert(items@[a].path@ == p);
                } else {
                    assert(items@[before.len() as int].path@ == p);
                }
            }
        }
        i += 1;
    }
    proof {
        assert forall|p: Seq<char>| #[trigger] last_index(rm, p) >= 0 implies listed(items@, p) by {
            lemma_last_index(rm, p);
        }
    }
    let mut j: usize = 0;
    while j < local.len()
        invariant
            j <= local.len(),
            l == views(local@),
            rm == views(remote@),
            distinct_paths(items@),
            forall|a: int|
                0 <= a < items.len() ==> Some((#[trigger] items@[a]).status) == classify(
                    l,
                    rm,
                    items@[a].path@,
                ) && (last_index(rm, items@[a].path@) >= 0 || 0 <= last_index(l, items@[a].path@)
                    < j),
            forall|p: Seq<char>| #[trigger] last_index(rm, p) >= 0 ==> listed(items@, p),
            forall|p: Seq<char>|
                last_index(rm, p) < 0 && 0 <= #[trigger] last_index(l, p) < j ==> listed(items@, p),
        decreases local.len() - j,
    {
        let ghost before = items@;
        let ghost path = l[j as int].path;
        proof {
            lemma_last_index(rm, path);
            lemma_last_index(l, path);
        }
        let here = find_entry(local, &local[j].path);
        let there = find_entry(remote, &local[j].path);
        if here == Some(j) && there.is_none() {
            items.push(ReconciledItem { path: local[j].path.clone(), status: DumbItem::Local });
            proof {
                assert(items@[before.len() as int].path@ == path);
                assert forall|a: int, b: int| 0 <= a < b < items@.len() implies (
                #[trigger] items@[a]).path@ != (#[trigger] items@[b]).path@ by {
                    assert(items@[a] == before[a]);
                    if b < before.len() {
                        assert(items@[b] == before[b]);
                    }
                }
            }
        }
        proof {
            assert forall|p: Seq<char>| #[trigger] last_index(rm, p) >= 0 implies listed(items@, p) by {
                let a = choose|a: int| 0 <= a < before.len() && (#[trigger] before[a]).path@ == p;
                assert(items@[a].path@ == p);
            }
            assert forall|p: Seq<char>|
                last_index(rm, p) < 0 && 0 <= #[trigger] last_index(l, p) < j + 1 implies listed(
                items@,
                p,
            ) by {
                lemma_last_index(l, p);
                if last_index(l, p) < j {
                    let a = choose|a: int| 0 <= a < before.len() && (#[trigger] before[a]).path@ == p;
                    assert(items@[a].path@ == p);
                } else {
                    assert(items@[before.len() as int].path@ == p);
                }
            }
        }
        j += 1;
    }
    let r = Reconciliation { items };
    proof {
        assert forall|p: Seq<char>| listed(r.items@, p) <==> classify(l, rm, p) is Some by {
            lemma_last_index(l, p);
            lemma_last_index(rm, p);
            if listed(r.items@, p) {
                let a = choose|a: int| 0 <= a < r.items@.len() && (#[trigger] r.items@[a]).path@ == p;
                assert(Some(r.items@[a].status) == classify(l, rm, p));
            }
        }
        assert forall|p: Seq<char>| listed(r.items@, p) implies r@[p] == classify(l, rm, p)->0 by {
            let a = choose|a: int| 0 <= a < r.items@.len() && (#[trigger] r.items@[a]).path@ == p;
            assert(Some(r.items@[a].status) == classify(l, rm, p));
        }
        assert(r@ =~= reconciled(l, rm));
        lemma_exhaustive(l, rm);
    }
    r
}

} // verus!

//! The manifest document: one line per published file.
//!
//! A line is the file's digest in hexadecimal, one space, the file's
//! relative path and a line feed. Reading is lenient: a line without a
//! space is passed over, and a carriage return before the line feed is
//! dropped. Where a path occurs on several lines, the last line counts.
use vstd::prelude::*;
use crate::text::{chars_of, string_of};

verus! {

/// The published state of one file.
#[derive(Debug, PartialEq, Eq)]
pub struct ManifestEntry {
    /// The content digest, as hexadecimal text.
    pub digest: String,
    /// The path relative to the synchronisation root.
    pub path: String,
}

/// What a `ManifestEntry` stands for in contracts.
pub struct EntryView {
    pub digest: Seq<char>,
    pub path: Seq<char>,
}

impl View for ManifestEntry {
    type V = EntryView;

    open spec fn view(&self) -> EntryView {
        EntryView { digest: self.digest@, path: self.path@ }
    }
}

/// The entries of a vector, each by its view.
pub open spec fn views(entries: Seq<ManifestEntry>) -> Seq<EntryView> {
    entries.map_values(|e: ManifestEntry| e@)
}

/// The line that publishes one entry.
pub open spec fn render_entry(e: EntryView) -> Seq<char> {
    e.digest + seq![' '] + e.path + seq!['\n']
}

/// The document that publishes `entries`, in their order.
pub open spec fn render(entries: Seq<EntryView>) -> Seq<char>
    decreases entries.len(),
{
    if entries.len() == 0 {
        Seq::empty()
    } else {
        render(entries.drop_last()) + render_entry(entries.last())
    }
}

/// The index of the first `c` in `s`, or the length of `s` if it holds none.
pub open spec fn first_index(s: Seq<char>, c: char) -> int
    decreases s.len(),
{
    if s.len() == 0 {
        0
    } else if s[0] == c {
        0
    } else {
        1 + first_index(s.skip(1), c)
    }
}

/// A line without the carriage return that may end it.
pub open spec fn strip_cr(line: Seq<char>) -> Seq<char> {
    if line.len() > 0 && line.last() == '\r' {
        line.drop_last()
    } else {
        line
    }
}

/// The entry that a line holds: the text before its first space is the
/// digest, the text after it the path. A line without a space holds none.
pub open spec fn line_entries(line: Seq<char>) -> Seq<EntryView> {
    let k = first_index(line, ' ');
    if 0 <= k < line.len() {
        seq![EntryView { digest: line.take(k), path: line.skip(k + 1) }]
    } else {
        Seq::empty()
    }
}

/// The entries of a document, in the order of its lines. Lines end at a
/// line feed; the last line may do without one.
pub open spec fn parse(doc: Seq<char>) -> Seq<EntryView>
    decreases doc.len(),
{
    if doc.len() == 0 {
        Seq::empty()
    } else {
        let n = first_index(doc, '\n');
        if 0 <= n < doc.len() {
            line_entries(strip_cr(doc.take(n))) + parse(doc.skip(n + 1))
        } else {
            line_entries(doc)
        }
    }
}

/// `k` is the first index of `c` in `s` when no earlier place holds `c`
/// and `k` is either the end of `s` or a place that holds `c`.
pub proof fn lemma_first_index(s: Seq<char>, c: char, k: int)
    requires
        0 <= k <= s.len(),
        forall|j: int| 0 <= j < k ==> s[j] != c,
        k < s.len() ==> s[k] == c,
    ensures
        first_index(s, c) == k,
    decreases s.len(),
{
    if s.len() > 0 && k > 0 {
        let t = s.skip(1);
        assert forall|j: int| 0 <= j < k - 1 implies t[j] != c by {
            assert(t[j] == s[j + 1]);
        }
        lemma_first_index(t, c, k - 1);
    }
}

/// The first index lies within the sequence or at its end, and nothing
/// before it is `c`.
pub proof fn lemma_first_index_bounds(s: Seq<char>, c: char)
    ensures
        0 <= first_index(s, c) <= s.len(),
        first_index(s, c) < s.len() ==> s[first_index(s, c)] == c,
        forall|j: int| 0 <= j < first_index(s, c) ==> s[j] != c,
    decreases s.len(),
{
    if s.len() > 0 && s[0] != c {
        let t = s.skip(1);
        lemma_first_index_bounds(t, c);
        assert forall|j: int| 0 <= j < first_index(s, c) implies s[j] != c by {
            if j > 0 {
                assert(s[j] == t[j - 1]);
            }
        }
    }
}

/// Whether an entry can be published on a line of its own and read back:
/// its digest holds no space and no line feed, its path no line feed and
/// no carriage return at its end.
pub open spec fn renderable(e: EntryView) -> bool {
    &&& forall|i: int| 0 <= i < e.digest.len() ==> e.digest[i] != ' ' && e.digest[i] != '\n'
    &&& forall|i: int| 0 <= i < e.path.len() ==> e.path[i] != '\n'
    &&& e.path.len() > 0 ==> e.path.last() != '\r'
}

/// Reading goes line by line: a document that ends with a line feed,
/// followed by a second document, holds the entries of both.
pub proof fn lemma_parse_concat(a: Seq<char>, b: Seq<char>)
    requires
        a.len() == 0 || a.last() == '\n',
    ensures
        parse(a + b) == parse(a) + parse(b),
    decreases a.len(),
{
    if a.len() == 0 {
        assert(a + b =~= b);
        assert(parse(a) + parse(b) =~= parse(b));
    } else {
        let n = first_index(a, '\n');
        lemma_first_index_bounds(a, '\n');
        assert(n < a.len()) by {
            if n == a.len() {
                assert(a[a.len() - 1] != '\n');
            }
        }
        let ab = a + b;
        assert forall|j: int| 0 <= j < n implies ab[j] != '\n' by {
            assert(ab[j] == a[j]);
        }
        assert(ab[n] == a[n]);
        lemma_first_index(ab, '\n', n);
        assert(ab.take(n) =~= a.take(n));
        let rest = a.skip(n + 1);
        assert(ab.skip(n + 1) =~= rest + b);
        if rest.len() > 0 {
            assert(rest.last() == a.last());
        }
        lemma_parse_concat(rest, b);
        assert(parse(ab) =~= parse(a) + parse(b));
    }
}

/// The line of a renderable entry reads back as that entry.
pub proof fn lemma_parse_entry(e: EntryView)
    requires
        renderable(e),
    ensures
        parse(render_entry(e)) == seq![e],
{
    let line = e.digest + seq![' '] + e.path;
    let doc = render_entry(e);
    assert(doc =~= line + seq!['\n']);
    let n = line.len() as int;
    assert forall|j: int| 0 <= j < n implies doc[j] != '\n' by {
        if j < e.digest.len() {
            assert(doc[j] == e.digest[j]);
        } else if j > e.digest.len() {
            assert(doc[j] == e.path[j - e.digest.len() - 1]);
        }
    }
    lemma_first_index(doc, '\n', n);
    assert(doc.take(n) =~= line);
    assert(strip_cr(line) == line) by {
        if e.path.len() > 0 {
            assert(line.last() == e.path.last());
        } else {
            assert(line.last() == ' ');
        }
    }
    let k = e.digest.len() as int;
    assert forall|j: int| 0 <= j < k implies line[j] != ' ' by {
        assert(line[j] == e.digest[j]);
    }
    assert(line[k] == ' ');
    lemma_first_index(line, ' ', k);
    assert(line.take(k) =~= e.digest);
    assert(line.skip(k + 1) =~= e.path);
    assert(line_entries(line) =~= seq![e]);
    assert(doc.skip(n + 1) =~= Seq::<char>::empty());
    assert(parse(doc.skip(n + 1)) =~= Seq::<EntryView>::empty());
    assert(parse(doc) =~= seq![e]);
}

/// Publishing and reading back: the document rendered from renderable
/// entries holds exactly those entries, in their order.
pub proof fn lemma_parse_render(entries: Seq<EntryView>)
    requires
        forall|i: int| 0 <= i < entries.len() ==> renderable(#[trigger] entries[i]),
    ensures
        parse(render(entries)) == entries,
    decreases entries.len(),
{
    if entries.len() == 0 {
        assert(parse(render(entries)) =~= entries);
    } else {
        let front = entries.drop_last();
        let last = entries.last();
        assert forall|i: int| 0 <= i < front.len() implies renderable(#[trigger] front[i]) by {
            assert(front[i] == entries[i]);
        }
        lemma_parse_render(front);
        lemma_parse_entry(last);
        if front.len() > 0 {
            assert(render(front) == render(front.drop_last()) + render_entry(front.last()));
            assert(render(front).last() == '\n');
        }
        lemma_parse_concat(render(front), render_entry(last));
        assert(front + seq![last] =~= entries);
    }
}

/// The index of the last entry for `path`, or -1 if no entry has it.
pub open spec fn last_index(entries: Seq<EntryView>, path: Seq<char>) -> int
    decreases entries.len(),
{
    if entries.len() == 0 {
        -1
    } else if entries.last().path == path {
        entries.len() - 1
    } else {
        last_index(entries.drop_last(), path)
    }
}

/// Whether some entry has `path`.
pub open spec fn has_path(entries: Seq<EntryView>, path: Seq<char>) -> bool {
    exists|i: int| 0 <= i < entries.len() && (#[trigger] entries[i]).path == path
}

/// The digest recorded for `path`: that of its last entry.
pub open spec fn digest_of(entries: Seq<EntryView>, path: Seq<char>) -> Option<Seq<char>> {
    let k = last_index(entries, path);
    if k >= 0 {
        Some(entries[k].digest)
    } else {
        None
    }
}

/// The last index points at an entry for the path, no later entry has the
/// path, and it is -1 exactly when no entry has it.
pub proof fn lemma_last_index(entries: Seq<EntryView>, path: Seq<char>)
    ensures
        -1 <= last_index(entries, path) < entries.len(),
        last_index(entries, path) >= 0 ==> entries[last_index(entries, path)].path == path,
        forall|j: int|
            last_index(entries, path) < j < entries.len() ==> (#[trigger] entries[j]).path != path,
        last_index(entries, path) >= 0 <==> has_path(entries, path),
    decreases entries.len(),
{
    if entries.len() > 0 {
        let front = entries.drop_last();
        lemma_last_index(front, path);
        if entries.last().path != path {
            assert forall|j: int| last_index(entries, path) < j < entries.len() implies (
            #[trigger] entries[j]).path != path by {
                if j < front.len() {
                    assert(front[j] == entries[j]);
                }
            }
            if has_path(entries, path) {
                let i = choose|i: int| 0 <= i < entries.len() && (#[trigger] entries[i]).path == path;
                assert(front[i].path == path);
            }
            if has_path(front, path) {
                let i = choose|i: int| 0 <= i < front.len() && (#[trigger] front[i]).path == path;
                assert(entries[i].path == path);
            }
        } else {
            assert(entries[entries.len() - 1].path == path);
        }
    }
}

/// Later entries count before earlier ones: in two lists of entries, one
/// after the other, a path is looked up in the second list first.
pub proof fn lemma_last_index_concat(a: Seq<EntryView>, b: Seq<EntryView>, path: Seq<char>)
    ensures
        last_index(a + b, path) == if last_index(b, path) >= 0 {
            a.len() + last_index(b, path)
        } else {
            last_index(a, path)
        },
        digest_of(a + b, path) == if has_path(b, path) {
            digest_of(b, path)
        } else {
            digest_of(a, path)
        },
    decreases b.len(),
{
    lemma_last_index(b, path);
    if b.len() == 0 {
        assert(a + b =~= a);
    } else {
        assert((a + b).last() == b.last());
        assert((a + b).drop_last() =~= a + b.drop_last());
        lemma_last_index_concat(a, b.drop_last(), path);
    }
    lemma_last_index(a, path);
    if last_index(b, path) >= 0 {
        assert((a + b)[a.len() + last_index(b, path)] == b[last_index(b, path)]);
    } else if last_index(a, path) >= 0 {
        assert((a + b)[last_index(a, path)] == a[last_index(a, path)]);
    }
}

/// Looks `path` up: the index of its last entry, if it has one.
pub fn find_entry(entries: &Vec<ManifestEntry>, path: &String) -> (found: Option<usize>)
    ensures
        found is Some <==> has_path(views(entries@), path@),
        match found {
            Some(i) => i == last_index(views(entries@), path@),
            None => last_index(views(entries@), path@) == -1,
        },
{
    let ghost all = views(entries@);
    let mut i: usize = entries.len();
    while i > 0
        invariant
            i <= entries.len(),
            all == views(entries@),
            forall|j: int| i <= j < entries.len() ==> (#[trigger] all[j]).path != path@,
        decreases i,
    {
        i -= 1;
        if entries[i].path == *path {
            proof {
                lemma_last_index(all, path@);
                assert(all[i as int].path == path@);
                let k = last_index(all, path@);
                if k < i {
                    assert(all[i as int].path != path@);
                }
                if k > i {
                    assert(all[k].path != path@);
                }
            }
            return Some(i);
        }
    }
    proof {
        lemma_last_index(all, path@);
        let k = last_index(all, path@);
        if k >= 0 {
            assert(all[k].path != path@);
        }
    }
    None
}

/// Whether the manifest records `path`.
pub fn contains_path(entries: &Vec<ManifestEntry>, path: &String) -> (found: bool)
    ensures
        found == has_path(views(entries@), path@),
{
    find_entry(entries, path).is_some()
}

/// The first index at or after `from` and before `to` that holds `c`, or
/// `to` if there is none.
fn find_char(chars: &Vec<char>, from: usize, to: usize, c: char) -> (k: usize)
    requires
        from <= to <= chars.len(),
    ensures
        from <= k <= to,
        forall|j: int| from <= j < k ==> chars@[j] != c,
        k < to ==> chars@[k as int] == c,
{
    let mut k: usize = from;
    while k < to && chars[k] != c
        invariant
            from <= k <= to <= chars.len(),
            forall|j: int| from <= j < k ==> chars@[j] != c,
        decreases to - k,
    {
        k += 1;
    }
    k
}

/// Renders the manifest document of `entries`: one line for each, in
/// their order.
pub fn generate(entries: &Vec<ManifestEntry>) -> (doc: String)
    ensures
        doc@ == render(views(entries@)),
{
    let mut doc = String::new();
    let mut i: usize = 0;
    while i < entries.len()
        invariant
            i <= entries.len(),
            doc@ == render(views(entries@).take(i as int)),
        decreases entries.len() - i,
    {
        let ghost before = doc@;
        doc.append(entries[i].digest.as_str());
        doc.append(" ");
        doc.append(entries[i].path.as_str());
        doc.append("\n");
        proof {
            reveal_strlit(" ");
            reveal_strlit("\n");
            let all = views(entries@);
            assert(" "@ =~= seq![' ']);
            assert("\n"@ =~= seq!['\n']);
            assert(all.take(i + 1).drop_last() =~= all.take(i as int));
            assert(all.take(i + 1).last() == entries@[i as int]@);
            assert(doc@ =~= before + render_entry(entries@[i as int]@));
        }
        i += 1;
    }
    proof {
        assert(views(entries@).take(i as int) =~= views(entries@));
    }
    doc
}

/// Reads a manifest document. Nothing in a document makes reading fail:
/// a line that holds no space contributes no entry.
pub fn parse_manifest(doc: &str) -> (entries: Vec<ManifestEntry>)
    ensures
        views(entries@) == parse(doc@),
{
    let chars = chars_of(doc);
    let n = chars.len();
    let mut entries: Vec<ManifestEntry> = Vec::new();
    let mut start: usize = 0;
    proof {
        assert(chars@.skip(0) =~= doc@);
        assert(views(entries@) =~= Seq::<EntryView>::empty());
    }
    while start < n
        invariant
            start <= n == chars.len(),
            parse(doc@) == views(entries@) + parse(chars@.skip(start as int)),
        decreases n - start,
    {
        let ghost rest = chars@.skip(start as int);
        let ghost done = views(entries@);
        let nl = find_char(&chars, start, n, '\n');
        proof {
            lemma_first_index(rest, '\n', nl - start);
        }
        let end = if nl < n && nl > start && chars[nl - 1] == '\r' {
            nl - 1
        } else {
            nl
        };
        let ghost line = chars@.subrange(start as int, end as int);
        proof {
            if nl < n {
                assert(strip_cr(rest.take(nl - start)) =~= line);
            } else {
                assert(rest =~= line);
            }
        }
        let sp = find_char(&chars, start, end, ' ');
        proof {
            lemma_first_index(line, ' ', sp - start);
        }
        if sp < end {
            let entry = ManifestEntry {
                digest: string_of(&chars, start, sp),
                path: string_of(&chars, sp + 1, end),
            };
            proof {
                assert(line.take(sp - start) =~= chars@.subrange(start as int, sp as int));
                assert(line.skip(sp - start + 1) =~= chars@.subrange(sp + 1, end as int));
                assert(line_entries(line) =~= seq![entry@]);
            }
            entries.push(entry);
        }
        proof {
            assert(views(entries@) =~= done + line_entries(line));
        }
        if nl < n {
            proof {
                assert(rest.skip(nl - start + 1) =~= chars@.skip(nl + 1));
            }
            start = nl + 1;
        } else {
            proof {
                assert(parse(chars@.skip(n as int)) =~= Seq::<EntryView>::empty());
            }
            start = n;
        }
    }
    proof {
        assert(parse(chars@.skip(n as int)) =~= Seq::<EntryView>::empty());
    }
    entries
}

} // verus!

//! Change classification.
//!
//! A poll round compares the fingerprint each tracked file had at the last
//! round with its fingerprint now.  A fingerprint is the checksum of the
//! file's text, or `-1` for a file known to be absent; the sentinel keeps a
//! deleted file from being reported again on every later round, and lets its
//! return be told apart from a first appearance.

use vstd::prelude::*;

use crate::fsview::{FsView, fs_has, fs_content};
use crate::strutil::str_eq;

verus! {

/// The checksum crc32fast computes over a text's bytes.
pub uninterp spec fn crc32_of(s: Seq<char>) -> u32;

/// Relies on crc32fast::hash: the checksum of a text depends on its bytes
/// alone, and equal texts give equal checksums.
#[verifier::external_body]
pub(crate) fn crc32_hash(s: &str) -> (r: u32)
    ensures
        r == crc32_of(s@),
{
    crc32fast::hash(s.as_bytes())
}

/// What one poll round sees of one file.
#[derive(Debug, PartialEq, Eq, Structural, Clone, Copy)]
pub enum FileState {
    NotModified,
    Modified,
    Created,
    Deleted,
}

/// What a change event reports, for an entry or for one of its
/// dependencies.
#[derive(Debug, PartialEq, Eq, Structural, Clone, Copy)]
pub enum EntryChangeType {
    Added,
    DepAdded,
    Modified,
    DepModified,
    Deleted,
    DepDeleted,
}

/// The dependency a change came through, and what happened to it.
#[derive(Debug)]
pub struct EntryChangeCause {
    pub file: String,
    pub state: FileState,
}

/// One reported change: the kind, the entry it belongs to, the dependency
/// that caused it where one did, and the chain from that dependency up to
/// the entry.
#[derive(Debug)]
pub struct EntryChange {
    pub change_type: EntryChangeType,
    pub entry: String,
    pub cause: Option<EntryChangeCause>,
    pub tree: Option<Vec<String>>,
}

/// The mathematical shape of one reported change.
pub struct ChangeModel {
    pub change_type: EntryChangeType,
    pub entry: Seq<char>,
    pub cause: Option<(Seq<char>, FileState)>,
    pub tree: Option<Seq<Seq<char>>>,
}

/// The model of one change value.
pub open spec fn change_model(c: EntryChange) -> ChangeModel {
    ChangeModel {
        change_type: c.change_type,
        entry: c.entry@,
        cause: match c.cause {
            Some(k) => Some((k.file@, k.state)),
            None => None,
        },
        tree: match c.tree {
            Some(t) => Some(t.deep_view()),
            None => None,
        },
    }
}

/// The models of a change list.
pub open spec fn changes_model(v: Seq<EntryChange>) -> Seq<ChangeModel> {
    v.map_values(|c: EntryChange| change_model(c))
}

/// The fingerprint a file has on this snapshot: its checksum, or `-1` when
/// the snapshot does not hold it.
pub open spec fn fingerprint(fs: FsView, p: Seq<char>) -> int {
    if fs_has(fs, p) {
        crc32_of(fs_content(fs, p)) as int
    } else {
        -1
    }
}

/// The fingerprint and state of one file against the previous round's
/// cache: an absent file is deleted, unless it was already recorded absent;
/// a present file is unchanged, re-created, changed, or first seen,
/// according to the recorded value.
pub open spec fn state_of(fs: FsView, cache: Map<Seq<char>, int>, p: Seq<char>) -> (int, FileState) {
    if !fs_has(fs, p) {
        if cache.contains_key(p) && cache[p] == -1 {
            (-1, FileState::NotModified)
        } else {
            (-1, FileState::Deleted)
        }
    } else {
        let c = crc32_of(fs_content(fs, p)) as int;
        if cache.contains_key(p) {
            if c == cache[p] {
                (c, FileState::NotModified)
            } else if cache[p] == -1 {
                (c, FileState::Created)
            } else {
                (c, FileState::Modified)
            }
        } else {
            (c, FileState::Created)
        }
    }
}

/// The recorded fingerprints, held as lines of path and value.
pub struct CacheMap {
    pub items: Vec<(String, i64)>,
}

/// The mapping a fingerprint record holds; later lines win.
pub open spec fn assoc_map(items: Seq<(String, i64)>) -> Map<Seq<char>, int>
    decreases items.len(),
{
    if items.len() == 0 {
        Map::empty()
    } else {
        assoc_map(items.drop_last()).insert(items.last().0@, items.last().1 as int)
    }
}

impl View for CacheMap {
    type V = Map<Seq<char>, int>;

    open spec fn view(&self) -> Map<Seq<char>, int> {
        assoc_map(self.items@)
    }
}

/// Each key of the record is the view of some line.
proof fn lemma_assoc_contains(items: Seq<(String, i64)>, k: Seq<char>)
    ensures
        assoc_map(items).contains_key(k) <==> exists|i: int|
            0 <= i < items.len() && #[trigger] items[i].0@ == k,
    decreases items.len(),
{
    if items.len() > 0 {
        lemma_assoc_contains(items.drop_last(), k);
        if assoc_map(items).contains_key(k) {
            if items.last().0@ != k {
                let i = choose|i: int|
                    0 <= i < items.drop_last().len() && #[trigger] items.drop_last()[i].0@ == k;
                assert(items[i].0@ == k);
            }
        }
        if exists|i: int| 0 <= i < items.len() && #[trigger] items[i].0@ == k {
            let i = choose|i: int| 0 <= i < items.len() && #[trigger] items[i].0@ == k;
            if i < items.len() - 1 {
                assert(items.drop_last()[i].0@ == k);
            }
        }
    }
}

/// Looking up the key of the last line gives that line's value.
proof fn lemma_assoc_last(items: Seq<(String, i64)>)
    requires
        items.len() > 0,
    ensures
        assoc_map(items).contains_key(items.last().0@),
        assoc_map(items)[items.last().0@] == items.last().1 as int,
{
}

/// A fresh record on top of old lines: what its map says for any key.
proof fn lemma_assoc_push(items: Seq<(String, i64)>, p: (String, i64))
    ensures
        assoc_map(items.push(p)) == assoc_map(items).insert(p.0@, p.1 as int),
{
    assert(items.push(p).drop_last() =~= items);
}

impl CacheMap {
    /// An empty record.
    pub fn new() -> (r: CacheMap)
        ensures
            r@ == Map::<Seq<char>, int>::empty(),
    {
        CacheMap { items: Vec::new() }
    }

    /// The recorded fingerprint of `k`, where one is recorded.
    pub fn get(&self, k: &str) -> (r: Option<i64>)
        ensures
            match r {
                Some(v) => self@.contains_key(k@) && self@[k@] == v as int,
                None => !self@.contains_key(k@),
            },
    {
        let n = self.items.len();
        let mut i = n;
        proof {
            assert(self.items@.take(n as int) =~= self.items@);
        }
        while i > 0
            invariant
                i <= n,
                n == self.items@.len(),
                assoc_map(self.items@).contains_key(k@) <==> assoc_map(
                    self.items@.take(i as int),
                ).contains_key(k@),
                assoc_map(self.items@).contains_key(k@) ==> assoc_map(
                    self.items@.take(i as int),
                )[k@] == assoc_map(self.items@)[k@],
            decreases i,
        {
            proof {
                assert(self.items@.take(i as int).drop_last() =~= self.items@.take(i as int - 1));
                assert(self.items@.take(i as int).last() == self.items@[i - 1]);
            }
            if str_eq(self.items[i - 1].0.as_str(), k) {
                let v = self.items[i - 1].1;
                proof {
                    lemma_assoc_last(self.items@.take(i as int));
                }
                return Some(v);
            }
            i = i - 1;
        }
        proof {
            assert(self.items@.take(0).len() == 0);
            lemma_assoc_contains(self.items@.take(0), k@);
        }
        None
    }

    /// Records the fingerprint of `k`, superseding any earlier record.
    pub fn set(&mut self, k: String, v: i64)
        ensures
            final(self)@ == old(self)@.insert(k@, v as int),
    {
        proof {
            lemma_assoc_push(self.items@, (k, v));
        }
        self.items.push((k, v));
    }
}

/// Classifies one file against the previous round's record.
pub fn get_file_state(fs: &FsView, path: &str, cache: &CacheMap) -> (r: (i64, FileState))
    requires
        crate::fsview::fs_wf(*fs),
    ensures
        r.0 as int == state_of(*fs, cache@, path@).0,
        r.1 == state_of(*fs, cache@, path@).1,
        r.0 as int == fingerprint(*fs, path@),
{
    match crate::fsview::fs_read(fs, path) {
        None => {
            match cache.get(path) {
                Some(v) => {
                    if v == -1 {
                        (-1, FileState::NotModified)
                    } else {
                        (-1, FileState::Deleted)
                    }
                },
                None => (-1, FileState::Deleted),
            }
        },
        Some(content) => {
            let c = crc32_hash(content.as_str());
            let ci = c as i64;
            match cache.get(path) {
                Some(v) => {
                    if ci == v {
                        (ci, FileState::NotModified)
                    } else if v == -1 {
                        (ci, FileState::Created)
                    } else {
                        (ci, FileState::Modified)
                    }
                },
                None => (ci, FileState::Created),
            }
        },
    }
}

/// The change type of an entry's own state.
pub open spec fn entry_change_type(st: FileState) -> EntryChangeType {
    match st {
        FileState::Created => EntryChangeType::Added,
        FileState::Modified => EntryChangeType::Modified,
        FileState::Deleted => EntryChangeType::Deleted,
        FileState::NotModified => EntryChangeType::Added,
    }
}

/// The change type of a dependency's state.
pub open spec fn dep_change_type(st: FileState) -> EntryChangeType {
    match st {
        FileState::Created => EntryChangeType::DepAdded,
        FileState::Modified => EntryChangeType::DepModified,
        FileState::Deleted => EntryChangeType::DepDeleted,
        FileState::NotModified => EntryChangeType::DepAdded,
    }
}

/// The dependency chain reported with the change of dependency `i`: from
/// that dependency up to the entry.
pub open spec fn tree_at(e: Seq<char>, ds: Seq<Seq<char>>, i: int) -> Seq<Seq<char>> {
    (seq![e] + ds.take(i + 1)).reverse()
}

/// The changes the dependencies of one entry report, walking `ds` from
/// position `i` on.
pub open spec fn dep_changes_from(
    fs: FsView,
    cache: Map<Seq<char>, int>,
    e: Seq<char>,
    ds: Seq<Seq<char>>,
    i: nat,
) -> Seq<ChangeModel>
    decreases ds.len() - i,
{
    if i >= ds.len() {
        Seq::empty()
    } else {
        let st = state_of(fs, cache, ds[i as int]).1;
        let rest = dep_changes_from(fs, cache, e, ds, i + 1);
        if st is NotModified {
            rest
        } else {
            seq![
                ChangeModel {
                    change_type: dep_change_type(st),
                    entry: e,
                    cause: Some((ds[i as int], st)),
                    tree: Some(tree_at(e, ds, i as int)),
                },
            ] + rest
        }
    }
}

/// The changes one entry reports on a round without re-ingestion: its own
/// change first, where its state asks for one, then its dependencies'.
pub open spec fn entry_changes(
    fs: FsView,
    cache: Map<Seq<char>, int>,
    e: Seq<char>,
    ds: Seq<Seq<char>>,
) -> Seq<ChangeModel> {
    let st = state_of(fs, cache, e).1;
    let head: Seq<ChangeModel> = if st is NotModified {
        Seq::empty()
    } else {
        seq![
            ChangeModel { change_type: entry_change_type(st), entry: e, cause: None, tree: None },
        ]
    };
    head + dep_changes_from(fs, cache, e, ds, 0)
}

/// Every recorded fingerprint is the file's fingerprint on this snapshot.
pub open spec fn cache_fingerprints(fs: FsView, c: Map<Seq<char>, int>) -> bool {
    forall|p: Seq<char>| #[trigger] c.contains_key(p) ==> c[p] == fingerprint(fs, p)
}

/// The record covers every item's path and dependencies.
pub open spec fn cache_covers(
    c: Map<Seq<char>, int>,
    items: Seq<(Seq<char>, Seq<Seq<char>>)>,
) -> bool {
    &&& forall|i: int| 0 <= i < items.len() ==> c.contains_key(#[trigger] items[i].0)
    &&& forall|i: int, j: int|
        0 <= i < items.len() && 0 <= j < items[i].1.len() ==> c.contains_key(
            #[trigger] items[i].1[j],
        )
}

/// The paths and dependency lists of the tracked items.
pub open spec fn items_model(items: Seq<crate::store::FileItem>) -> Seq<(Seq<char>, Seq<Seq<char>>)> {
    items.map_values(|it: crate::store::FileItem| (it.path@, it.deps.deep_view()))
}

/// The changes a quiet round reports, entry by entry from position `i` on.
pub open spec fn round_changes_from(
    fs: FsView,
    cache: Map<Seq<char>, int>,
    items: Seq<(Seq<char>, Seq<Seq<char>>)>,
    i: nat,
) -> Seq<ChangeModel>
    decreases items.len() - i,
{
    if i >= items.len() {
        Seq::empty()
    } else {
        entry_changes(fs, cache, items[i as int].0, items[i as int].1) + round_changes_from(
            fs,
            cache,
            items,
            i + 1,
        )
    }
}

/// The changes a round without re-ingestion reports.
pub open spec fn round_changes(
    fs: FsView,
    cache: Map<Seq<char>, int>,
    items: Seq<(Seq<char>, Seq<Seq<char>>)>,
) -> Seq<ChangeModel> {
    round_changes_from(fs, cache, items, 0)
}

/// The model of a change list grows one model per pushed change.
pub proof fn lemma_changes_model_push(v: Seq<EntryChange>, c: EntryChange)
    ensures
        changes_model(v.push(c)) == changes_model(v).push(change_model(c)),
{
    assert forall|i: int| 0 <= i < changes_model(v.push(c)).len() implies changes_model(v.push(c))[i]
        == changes_model(v).push(change_model(c))[i] by {
        if i < v.len() {
            assert(v.push(c)[i] == v[i]);
        }
    }
    assert(changes_model(v.push(c)) =~= changes_model(v).push(change_model(c)));
}

/// Walking one more entry appends that entry's changes.
pub proof fn lemma_round_push(
    fs: FsView,
    cache: Map<Seq<char>, int>,
    items: Seq<(Seq<char>, Seq<Seq<char>>)>,
    it: (Seq<char>, Seq<Seq<char>>),
)
    ensures
        round_changes(fs, cache, items.push(it)) == round_changes(fs, cache, items)
            + entry_changes(fs, cache, it.0, it.1),
{
    lemma_round_push_from(fs, cache, items, it, 0);
}

proof fn lemma_round_push_from(
    fs: FsView,
    cache: Map<Seq<char>, int>,
    items: Seq<(Seq<char>, Seq<Seq<char>>)>,
    it: (Seq<char>, Seq<Seq<char>>),
    i: nat,
)
    requires
        i <= items.len(),
    ensures
        round_changes_from(fs, cache, items.push(it), i) == round_changes_from(fs, cache, items, i)
            + entry_changes(fs, cache, it.0, it.1),
    decreases items.len() - i,
{
    let e_it = entry_changes(fs, cache, it.0, it.1);
    if i < items.len() {
        lemma_round_push_from(fs, cache, items, it, i + 1);
        assert(items.push(it)[i as int] == items[i as int]);
        let head = entry_changes(fs, cache, items[i as int].0, items[i as int].1);
        assert(head + (round_changes_from(fs, cache, items, i + 1) + e_it) =~= (head
            + round_changes_from(fs, cache, items, i + 1)) + e_it);
    } else {
        assert(items.push(it)[i as int] == it);
        assert(round_changes_from(fs, cache, items.push(it), i + 1) =~= Seq::<ChangeModel>::empty());
        assert(e_it + Seq::<ChangeModel>::empty() =~= e_it);
        assert(round_changes_from(fs, cache, items, i) =~= Seq::<ChangeModel>::empty());
        assert(Seq::<ChangeModel>::empty() + e_it =~= e_it);
    }
}

/// The shape every reported change has: an entry-level change carries no
/// cause and no chain; a dependency change carries both, its cause's state
/// matches its type and is never the unchanged state, and its chain runs
/// from the causing file up to the entry.
pub open spec fn change_shape(c: ChangeModel) -> bool {
    match c.change_type {
        EntryChangeType::Added | EntryChangeType::Modified | EntryChangeType::Deleted => c.cause
            is None && c.tree is None,
        EntryChangeType::DepAdded | EntryChangeType::DepModified
            | EntryChangeType::DepDeleted => {
            &&& c.cause matches Some(k) && k.0 == c.tree->Some_0[0] && (match c.change_type {
                EntryChangeType::DepAdded => k.1 is Created,
                EntryChangeType::DepModified => k.1 is Modified,
                _ => k.1 is Deleted,
            })
            &&& c.tree matches Some(t) && t.len() >= 2 && t.last() == c.entry
        },
    }
}

/// Every change a dependency walk reports is well shaped.
proof fn lemma_dep_changes_shape(
    fs: FsView,
    cache: Map<Seq<char>, int>,
    e: Seq<char>,
    ds: Seq<Seq<char>>,
    i: nat,
)
    ensures
        forall|t: int|
            0 <= t < dep_changes_from(fs, cache, e, ds, i).len() ==> change_shape(
                #[trigger] dep_changes_from(fs, cache, e, ds, i)[t],
            ),
    decreases ds.len() - i,
{
    if i < ds.len() {
        lemma_dep_changes_shape(fs, cache, e, ds, i + 1);
        let cur = dep_changes_from(fs, cache, e, ds, i);
        let rest = dep_changes_from(fs, cache, e, ds, i + 1);
        let st = state_of(fs, cache, ds[i as int]).1;
        assert forall|t: int| 0 <= t < cur.len() implies change_shape(#[trigger] cur[t]) by {
            if st is NotModified {
                assert(cur[t] == rest[t]);
            } else if t == 0 {
                let tr = tree_at(e, ds, i as int);
                let raw = seq![e] + ds.take(i as int + 1);
                assert(tr.len() == i + 2);
                assert(tr[0] == raw[raw.len() - 1]);
                assert(raw[raw.len() - 1] == ds.take(i as int + 1)[i as int]);
                assert(tr.last() == raw[0]);
                assert(raw[0] == e);
            } else {
                assert(cur[t] == rest[t - 1]);
            }
        }
    }
}

/// Every change one entry reports is well shaped.
proof fn lemma_entry_changes_shape(
    fs: FsView,
    cache: Map<Seq<char>, int>,
    e: Seq<char>,
    ds: Seq<Seq<char>>,
)
    ensures
        forall|t: int|
            0 <= t < entry_changes(fs, cache, e, ds).len() ==> change_shape(
                #[trigger] entry_changes(fs, cache, e, ds)[t],
            ),
{
    lemma_dep_changes_shape(fs, cache, e, ds, 0);
    let st = state_of(fs, cache, e).1;
    let cur = entry_changes(fs, cache, e, ds);
    let tail = dep_changes_from(fs, cache, e, ds, 0);
    assert forall|t: int| 0 <= t < cur.len() implies change_shape(#[trigger] cur[t]) by {
        if st is NotModified {
            assert(cur[t] == tail[t]);
        } else if t > 0 {
            assert(cur[t] == tail[t - 1]);
        }
    }
}

/// Every change a round reports is well shaped: the walk only builds records
/// of this form, whatever the round re-ingested.
pub proof fn lemma_round_changes_shape(
    fs: FsView,
    cache: Map<Seq<char>, int>,
    items: Seq<(Seq<char>, Seq<Seq<char>>)>,
    i: nat,
)
    ensures
        forall|t: int|
            0 <= t < round_changes_from(fs, cache, items, i).len() ==> change_shape(
                #[trigger] round_changes_from(fs, cache, items, i)[t],
            ),
    decreases items.len() - i,
{
    if i < items.len() {
        lemma_round_changes_shape(fs, cache, items, i + 1);
        lemma_entry_changes_shape(fs, cache, items[i as int].0, items[i as int].1);
        let cur = round_changes_from(fs, cache, items, i);
        let head = entry_changes(fs, cache, items[i as int].0, items[i as int].1);
        let rest = round_changes_from(fs, cache, items, i + 1);
        assert forall|t: int| 0 <= t < cur.len() implies change_shape(#[trigger] cur[t]) by {
            if t < head.len() {
                assert(cur[t] == head[t]);
            } else {
                assert(cur[t] == rest[t - head.len()]);
            }
        }
    }
}

/// A file whose recorded fingerprint equals its current one reports no
/// state change, whether it is present or known absent.
pub proof fn lemma_consistent_not_modified(
    fs: FsView,
    cache: Map<Seq<char>, int>,
    p: Seq<char>,
)
    requires
        cache.contains_key(p),
        cache[p] == fingerprint(fs, p),
    ensures
        state_of(fs, cache, p).1 is NotModified,
{
}

/// Between two rounds with no filesystem activity the second reports
/// nothing: a round whose cache records the current fingerprint of every
/// file it walks yields an empty change list.
pub proof fn lemma_quiet_round(
    fs: FsView,
    cache: Map<Seq<char>, int>,
    items: Seq<(Seq<char>, Seq<Seq<char>>)>,
)
    requires
        forall|i: int|
            0 <= i < items.len() ==> cache.contains_key(#[trigger] items[i].0) && cache[items[i].0]
                == fingerprint(fs, items[i].0),
        forall|i: int, j: int|
            0 <= i < items.len() && 0 <= j < items[i].1.len() ==> cache.contains_key(
                #[trigger] items[i].1[j],
            ) && cache[items[i].1[j]] == fingerprint(fs, items[i].1[j]),
    ensures
        round_changes(fs, cache, items) == Seq::<ChangeModel>::empty(),
{
    lemma_quiet_round_from(fs, cache, items, 0);
}

proof fn lemma_quiet_round_from(
    fs: FsView,
    cache: Map<Seq<char>, int>,
    items: Seq<(Seq<char>, Seq<Seq<char>>)>,
    i: nat,
)
    requires
        forall|i: int|
            0 <= i < items.len() ==> cache.contains_key(#[trigger] items[i].0) && cache[items[i].0]
                == fingerprint(fs, items[i].0),
        forall|i: int, j: int|
            0 <= i < items.len() && 0 <= j < items[i].1.len() ==> cache.contains_key(
                #[trigger] items[i].1[j],
            ) && cache[items[i].1[j]] == fingerprint(fs, items[i].1[j]),
    ensures
        round_changes_from(fs, cache, items, i) == Seq::<ChangeModel>::empty(),
    decreases items.len() - i,
{
    if i < items.len() {
        lemma_quiet_round_from(fs, cache, items, i + 1);
        lemma_quiet_deps(fs, cache, items[i as int].0, items[i as int].1, 0);
        assert(entry_changes(fs, cache, items[i as int].0, items[i as int].1) + Seq::<
            ChangeModel,
        >::empty() =~= entry_changes(fs, cache, items[i as int].0, items[i as int].1));
        assert(Seq::<ChangeModel>::empty() + Seq::<ChangeModel>::empty() =~= Seq::<
            ChangeModel,
        >::empty());
    }
}

proof fn lemma_quiet_deps(
    fs: FsView,
    cache: Map<Seq<char>, int>,
    e: Seq<char>,
    ds: Seq<Seq<char>>,
    j: nat,
)
    requires
        forall|k: int|
            0 <= k < ds.len() ==> cache.contains_key(#[trigger] ds[k]) && cache[ds[k]]
                == fingerprint(fs, ds[k]),
    ensures
        dep_changes_from(fs, cache, e, ds, j) == Seq::<ChangeModel>::empty(),
    decreases ds.len() - j,
{
    if j < ds.len() {
        lemma_quiet_deps(fs, cache, e, ds, j + 1);
    }
}

/// After an entry file is deleted, the next round reports exactly one
/// deletion for that entry, provided every other walked file still matches
/// its recorded fingerprint and the entry is no dependency of any entry.
pub proof fn lemma_deletion_round(
    fs: FsView,
    cache: Map<Seq<char>, int>,
    items: Seq<(Seq<char>, Seq<Seq<char>>)>,
    k: int,
)
    requires
        0 <= k < items.len(),
        !fs_has(fs, items[k].0),
        cache.contains_key(items[k].0),
        cache[items[k].0] != -1,
        forall|i: int|
            0 <= i < items.len() && i != k ==> cache.contains_key(#[trigger] items[i].0)
                && cache[items[i].0] == fingerprint(fs, items[i].0),
        forall|i: int, j: int|
            0 <= i < items.len() && 0 <= j < items[i].1.len() ==> cache.contains_key(
                #[trigger] items[i].1[j],
            ) && cache[items[i].1[j]] == fingerprint(fs, items[i].1[j]),
        forall|i: int| 0 <= i < items.len() && i != k ==> #[trigger] items[i].0 != items[k].0,
    ensures
        round_changes(fs, cache, items) == seq![
            ChangeModel {
                change_type: EntryChangeType::Deleted,
                entry: items[k].0,
                cause: None,
                tree: None,
            },
        ],
{
    lemma_deletion_round_from(fs, cache, items, k, 0);
}

proof fn lemma_deletion_round_from(
    fs: FsView,
    cache: Map<Seq<char>, int>,
    items: Seq<(Seq<char>, Seq<Seq<char>>)>,
    k: int,
    i: nat,
)
    requires
        0 <= k < items.len(),
        !fs_has(fs, items[k].0),
        cache.contains_key(items[k].0),
        cache[items[k].0] != -1,
        forall|i: int|
            0 <= i < items.len() && i != k ==> cache.contains_key(#[trigger] items[i].0)
                && cache[items[i].0] == fingerprint(fs, items[i].0),
        forall|i: int, j: int|
            0 <= i < items.len() && 0 <= j < items[i].1.len() ==> cache.contains_key(
                #[trigger] items[i].1[j],
            ) && cache[items[i].1[j]] == fingerprint(fs, items[i].1[j]),
    ensures
        i <= k ==> round_changes_from(fs, cache, items, i) == seq![
            ChangeModel {
                change_type: EntryChangeType::Deleted,
                entry: items[k].0,
                cause: None,
                tree: None,
            },
        ],
        i > k ==> round_changes_from(fs, cache, items, i) == Seq::<ChangeModel>::empty(),
    decreases items.len() - i,
{
    if i < items.len() {
        lemma_deletion_round_from(fs, cache, items, k, i + 1);
        lemma_quiet_deps(fs, cache, items[i as int].0, items[i as int].1, 0);
        let del = ChangeModel {
            change_type: EntryChangeType::Deleted,
            entry: items[k].0,
            cause: None,
            tree: None,
        };
        if i as int == k {
            assert(state_of(fs, cache, items[k].0).1 is Deleted);
            assert(seq![del] + Seq::<ChangeModel>::empty() =~= seq![del]);
        } else {
            assert(state_of(fs, cache, items[i as int].0).1 is NotModified);
            if i < k {
                assert(Seq::<ChangeModel>::empty() + seq![del] =~= seq![del]);
            } else {
                assert(Seq::<ChangeModel>::empty() + Seq::<ChangeModel>::empty() =~= Seq::<
                    ChangeModel,
                >::empty());
            }
        }
    } else {
        assert(i > k);
    }
}

} // verus!

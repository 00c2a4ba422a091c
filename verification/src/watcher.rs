//! The watcher state and its poll round.
//!
//! A watcher holds the dependency store and the entry snapshots.  One poll
//! round expands the entry set against the snapshot, classifies every entry
//! and every dependency against the previous round's fingerprints,
//! re-ingests entries whose text changed, reports the changes, and leaves a
//! fresh fingerprint record and reconciled entry snapshots behind.  The
//! polling thread, the fingerprint file and the callback live outside the
//! library.

use vstd::prelude::*;

use crate::changes::{
    CacheMap, EntryChange, EntryChangeCause, EntryChangeType, FileState, ChangeModel,
    changes_model, change_model, entry_changes, round_changes, state_of, fingerprint,
    entry_change_type, dep_change_type, dep_changes_from, tree_at, items_model, get_file_state,
    cache_fingerprints, cache_covers,
};
use crate::entry::{
    MakeEntriesOptions, SupportedPaths, WatchError, candidates_spec, deps_closed, deps_nodup,
    is_module_path, keys_module, make_file_item, make_missing_entries, skippable,
};
use crate::fsview::{FsView, fs_wf};
use crate::store::{FileItem, Store};

verus! {

/// What a watcher is set up from.
pub struct SetupOptions {
    pub project: String,
    pub project_root: String,
    pub glob_entries: Option<Vec<String>>,
    pub entries: Option<Vec<String>>,
    pub cache_dir: Option<String>,
    pub supported_paths: Option<SupportedPaths>,
    pub debug: Option<bool>,
}

/// The default directory name of the fingerprint record, under the project
/// root.
pub open spec fn kw_default_cache_dir() -> Seq<char> {
    seq!['/', 'm', 'w', '-', 'c', 'a', 'c', 'h', 'e']
}

/// The paths of an optional path list.
pub open spec fn opt_paths_model(o: Option<Vec<String>>) -> Seq<Seq<char>> {
    match o {
        Some(v) => v.deep_view(),
        None => Seq::empty(),
    }
}

/// Every entry snapshot names a tracked path.
pub open spec fn entries_tracked(
    m: Map<Seq<char>, Seq<Seq<char>>>,
    items: Seq<(Seq<char>, Seq<Seq<char>>)>,
) -> bool {
    forall|i: int| 0 <= i < items.len() ==> m.dom().contains(#[trigger] items[i].0)
}

/// Every tracked dependency of an entry's store record shows in the entry's
/// snapshot.
pub open spec fn entries_cover(
    m: Map<Seq<char>, Seq<Seq<char>>>,
    items: Seq<(Seq<char>, Seq<Seq<char>>)>,
) -> bool {
    forall|i: int, j: int|
        #![trigger m[items[i].0][j]]
        0 <= i < items.len() && m.dom().contains(items[i].0) && 0 <= j < m[items[i].0].len()
            && m.dom().contains(m[items[i].0][j]) ==> items[i].1.contains(m[items[i].0][j])
}

/// The dependencies of `ds` that the store still tracks, in order.
pub open spec fn filter_tracked(m: Map<Seq<char>, Seq<Seq<char>>>, ds: Seq<Seq<char>>, i: nat) -> Seq<
    Seq<char>,
>
    decreases ds.len() - i,
{
    if i >= ds.len() {
        Seq::empty()
    } else if m.dom().contains(ds[i as int]) {
        seq![ds[i as int]] + filter_tracked(m, ds, i + 1)
    } else {
        filter_tracked(m, ds, i + 1)
    }
}

/// Every element of a tracked filter is a tracked element of the source.
proof fn lemma_filter_tracked(m: Map<Seq<char>, Seq<Seq<char>>>, ds: Seq<Seq<char>>, i: nat)
    ensures
        forall|t: int|
            0 <= t < filter_tracked(m, ds, i).len() ==> m.dom().contains(
                #[trigger] filter_tracked(m, ds, i)[t],
            ) && ds.contains(filter_tracked(m, ds, i)[t]),
    decreases ds.len() - i,
{
    if i < ds.len() {
        lemma_filter_tracked(m, ds, i + 1);
        let cur = filter_tracked(m, ds, i);
        let rest = filter_tracked(m, ds, i + 1);
        assert forall|t: int|
            0 <= t < cur.len() implies m.dom().contains(#[trigger] cur[t]) && ds.contains(
            cur[t],
        ) by {
            if m.dom().contains(ds[i as int]) {
                if t == 0 {
                    assert(cur[t] == ds[i as int]);
                } else {
                    assert(cur[t] == rest[t - 1]);
                }
            } else {
                assert(cur[t] == rest[t]);
            }
        }
    }
}

/// A tracked element of the source list shows in the tracked filter.
proof fn lemma_filter_member(m: Map<Seq<char>, Seq<Seq<char>>>, ds: Seq<Seq<char>>, i: nat, j: int)
    requires
        i <= j < ds.len(),
        m.dom().contains(ds[j]),
    ensures
        filter_tracked(m, ds, i).contains(ds[j]),
    decreases ds.len() - i,
{
    if i as int == j {
        assert(filter_tracked(m, ds, i)[0] == ds[j]);
    } else {
        lemma_filter_member(m, ds, i + 1, j);
        let rest = filter_tracked(m, ds, i + 1);
        let w = choose|w: int| 0 <= w < rest.len() && rest[w] == ds[j];
        if m.dom().contains(ds[i as int]) {
            assert(filter_tracked(m, ds, i)[w + 1] == ds[j]);
        } else {
            assert(filter_tracked(m, ds, i)[w] == ds[j]);
        }
    }
}

/// Every entry snapshot holds exactly the still-tracked dependencies of its
/// store record.
pub open spec fn entries_reconciled(
    m: Map<Seq<char>, Seq<Seq<char>>>,
    items: Seq<(Seq<char>, Seq<Seq<char>>)>,
) -> bool {
    forall|i: int|
        0 <= i < items.len() ==> m.dom().contains(#[trigger] items[i].0) && items[i].1
            == filter_tracked(m, m[items[i].0], 0)
}

/// The watcher over one project: the options it was set up from, the
/// dependency store, the entry snapshots, and where the fingerprint record
/// lives.
pub struct WatcherInner {
    pub setup_options: SetupOptions,
    pub store: Store,
    pub entries: Vec<FileItem>,
    pub processed: bool,
    pub cache_dir: String,
    pub make_entries_opts: Option<MakeEntriesOptions>,
}

impl WatcherInner {
    /// The store's contents.
    pub open spec fn dep_map(&self) -> Map<Seq<char>, Seq<Seq<char>>> {
        self.store@
    }

    /// The entry snapshots.
    pub open spec fn entry_items(&self) -> Seq<FileItem> {
        self.entries@
    }

    /// The options ingestion runs under.
    pub open spec fn opts_of(&self) -> Option<MakeEntriesOptions> {
        self.make_entries_opts
    }
}

/// The candidate entry paths of a watcher on a snapshot.
pub open spec fn watch_candidates(fs: FsView, w: WatcherInner) -> Seq<Seq<char>> {
    candidates_spec(
        fs,
        opt_paths_model(w.setup_options.entries),
        opt_paths_model(w.setup_options.glob_entries),
        w.setup_options.project_root@,
    )
}

/// The watcher's standing shape: closed, duplicate-free store records over
/// module paths, and entry snapshots that name tracked paths and cover their
/// records' tracked dependencies.
pub open spec fn inner_inv(w: WatcherInner) -> bool {
    &&& deps_closed(w.opts_of(), w.dep_map())
    &&& deps_nodup(w.dep_map())
    &&& keys_module(w.opts_of(), w.dep_map())
    &&& entries_tracked(w.dep_map(), items_model(w.entry_items()))
    &&& entries_cover(w.dep_map(), items_model(w.entry_items()))
}

/// A round that re-ingests nothing: every candidate is already tracked or
/// skippable, and no entry's own text changed.  Dependencies may still have
/// changed; such a round reports them without touching the store.
pub open spec fn settled_pre(fs: FsView, w: WatcherInner, cache: Map<Seq<char>, int>) -> bool {
    &&& forall|j: int|
        0 <= j < watch_candidates(fs, w).len() ==> w.dep_map().contains_key(
            #[trigger] watch_candidates(fs, w)[j],
        ) || skippable(w.opts_of(), watch_candidates(fs, w)[j])
    &&& forall|i: int|
        0 <= i < w.entry_items().len() ==> !(state_of(
            fs,
            cache,
            #[trigger] items_model(w.entry_items())[i].0,
        ).1 is Modified)
}

/// Whether every glob pattern of the watcher compiles, in its full form.
pub open spec fn watch_patterns_ok(globs: Option<Vec<String>>, project: Seq<char>) -> bool {
    match globs {
        Some(g) => forall|i: int|
            0 <= i < g.deep_view().len() ==> crate::entry::glob_pat_ok(
                #[trigger] crate::entry::glob_full_spec(project, g.deep_view()[i]),
            ),
        None => true,
    }
}

/// The items whose tracked record names `p`, or that are `p` itself.
pub open spec fn entries_serving(
    items: Seq<(Seq<char>, Seq<Seq<char>>)>,
    m: Map<Seq<char>, Seq<Seq<char>>>,
    p: Seq<char>,
) -> Seq<(Seq<char>, Seq<Seq<char>>)>
    decreases items.len(),
{
    if items.len() == 0 {
        Seq::empty()
    } else if m.dom().contains(items[0].0) && (items[0].0 == p || m[items[0].0].contains(p)) {
        seq![items[0]] + entries_serving(items.skip(1), m, p)
    } else {
        entries_serving(items.skip(1), m, p)
    }
}

/// A deep copy of a path list.
fn clone_paths(v: &Vec<String>) -> (r: Vec<String>)
    ensures
        r.deep_view() == v.deep_view(),
        r@.len() == v@.len(),
{
    let mut r: Vec<String> = Vec::new();
    let mut i: usize = 0;
    while i < v.len()
        invariant
            i <= v@.len(),
            r@.len() == i,
            forall|j: int| 0 <= j < i ==> #[trigger] r@[j]@ == v@[j]@,
        decreases v@.len() - i,
    {
        r.push(v[i].clone());
        i = i + 1;
    }
    proof {
        assert forall|j: int| 0 <= j < r.deep_view().len() implies r.deep_view()[j]
            == v.deep_view()[j] by {
            assert(r@[j]@ == v@[j]@);
        }
        assert(r.deep_view() =~= v.deep_view());
    }
    r
}

/// A deep copy of one optional extension list.
fn clone_opt_paths(v: &Option<Vec<String>>) -> (r: Option<Vec<String>>)
    ensures
        match r {
            Some(x) => v matches Some(y) && x.deep_view() == y.deep_view(),
            None => v is None,
        },
{
    match v {
        Some(x) => Some(clone_paths(x)),
        None => None,
    }
}

/// Two optional extension lists with the same texts.
pub open spec fn opt_paths_eq(a: Option<Vec<String>>, b: Option<Vec<String>>) -> bool {
    match a {
        Some(x) => b matches Some(y) && x.deep_view() == y.deep_view(),
        None => b is None,
    }
}

/// A deep copy of the per-family extension sets.
fn clone_supported(sp: &Option<SupportedPaths>) -> (r: Option<SupportedPaths>)
    ensures
        match r {
            Some(x) => sp matches Some(y) && opt_paths_eq(x.esm, y.esm) && opt_paths_eq(
                x.dyn_esm,
                y.dyn_esm,
            ) && opt_paths_eq(x.cjs, y.cjs) && opt_paths_eq(x.css, y.css),
            None => sp is None,
        },
{
    match sp {
        Some(s) => Some(
            SupportedPaths {
                esm: clone_opt_paths(&s.esm),
                dyn_esm: clone_opt_paths(&s.dyn_esm),
                cjs: clone_opt_paths(&s.cjs),
                css: clone_opt_paths(&s.css),
            },
        ),
        None => None,
    }
}

/// The change type of an entry's own state.
fn entry_change_type_of(st: FileState) -> (r: EntryChangeType)
    ensures
        r == entry_change_type(st),
{
    match st {
        FileState::Created => EntryChangeType::Added,
        FileState::Modified => EntryChangeType::Modified,
        FileState::Deleted => EntryChangeType::Deleted,
        FileState::NotModified => EntryChangeType::Added,
    }
}

/// The change type of a dependency's state.
fn dep_change_type_of(st: FileState) -> (r: EntryChangeType)
    ensures
        r == dep_change_type(st),
{
    match st {
        FileState::Created => EntryChangeType::DepAdded,
        FileState::Modified => EntryChangeType::DepModified,
        FileState::Deleted => EntryChangeType::DepDeleted,
        FileState::NotModified => EntryChangeType::DepAdded,
    }
}

impl WatcherInner {
    /// Sets a watcher up: expands the entries and globs against the
    /// snapshot, builds the store, and keeps the options and the directory
    /// the fingerprint record belongs in.
    pub fn setup(fs: &FsView, opts: SetupOptions) -> (r: Result<WatcherInner, WatchError>)
        requires
            fs_wf(*fs),
            fs.files@.len() < 0xffff_ffff_ffff_ffff,
        ensures
            match r {
                Ok(w) => inner_inv(w) && w.processed && w.setup_options == opts
                    && w.cache_dir@ == (match opts.cache_dir {
                    Some(d) => d@,
                    None => opts.project_root@ + kw_default_cache_dir(),
                }) && crate::entry::opts_model(w.opts_of()) == crate::entry::opts_model(
                    Some(
                        (MakeEntriesOptions { supported_paths: opts.supported_paths }),
                    ),
                ) && (watch_patterns_ok(opts.glob_entries, opts.project_root@) ==> ({
                    let cands = candidates_spec(
                        *fs,
                        opt_paths_model(opts.entries),
                        opt_paths_model(opts.glob_entries),
                        opts.project_root@,
                    );
                    let kept = crate::entry::untracked_candidates(
                        crate::store::empty_store_map(),
                        cands,
                        0,
                    );
                    let ex = crate::entry::expand_spec(
                        *fs,
                        w.opts_of(),
                        opts.project_root@,
                        crate::store::empty_store_map(),
                        kept,
                        0,
                        fs.files@.len() + 1,
                    );
                    ex.1 is None && w.dep_map() == ex.0 && items_model(w.entry_items())
                        == crate::entry::tracked_items(w.dep_map(), kept, 0)
                })),
                Err(_) => true,
            },
    {
        let entries_vec: Vec<String> = match &opts.entries {
            Some(v) => clone_paths(v),
            None => Vec::new(),
        };
        proof {
            assert(entries_vec.deep_view() =~= opt_paths_model(opts.entries));
        }
        let cache_dir = match &opts.cache_dir {
            Some(d) => d.clone(),
            None => {
                let mut s = opts.project_root.clone();
                s.append("/mw-cache");
                proof {
                    reveal_strlit("/mw-cache");
                    assert("/mw-cache"@ =~= kw_default_cache_dir());
                }
                s
            },
        };
        let me_opts = Some(
            MakeEntriesOptions { supported_paths: clone_supported(&opts.supported_paths) },
        );
        proof {
            assert(crate::entry::opts_model(me_opts) == crate::entry::opts_model(
                Some((MakeEntriesOptions { supported_paths: opts.supported_paths })),
            ));
        }
        let globs_ref = opts.glob_entries.as_ref();
        let mut store = Store::new();
        proof {
            assert((match globs_ref {
                Some(g) => g.deep_view(),
                None => Seq::<Seq<char>>::empty(),
            }) =~= opt_paths_model(opts.glob_entries));
            assert(crate::entry::patterns_ok(globs_ref, opts.project_root@) == watch_patterns_ok(
                opts.glob_entries,
                opts.project_root@,
            ));
        }
        let items = match make_missing_entries(
            fs,
            entries_vec,
            globs_ref,
            opts.project_root.as_str(),
            &mut store,
            &me_opts,
        ) {
            Ok(items) => items,
            Err(e) => {
                return Err(e);
            },
        };
        proof {
            assert(candidates_spec(
                *fs,
                opt_paths_model(opts.entries),
                opt_paths_model(opts.glob_entries),
                opts.project_root@,
            ) == crate::entry::round_candidates(
                *fs,
                entries_vec,
                globs_ref,
                opts.project_root@,
            ));
        }
        let w = WatcherInner {
            setup_options: opts,
            store,
            entries: items,
            processed: true,
            cache_dir,
            make_entries_opts: me_opts,
        };
        proof {
            assert forall|i: int|
                0 <= i < items_model(w.entry_items()).len() implies w.dep_map().contains_key(
                #[trigger] items_model(w.entry_items())[i].0,
            ) by {
                assert(w.entry_items()[i] == w.entries@[i]);
            }
            assert forall|i: int, j: int|
                #![trigger w.dep_map()[items_model(w.entry_items())[i].0][j]]
                0 <= i < items_model(w.entry_items()).len() && w.dep_map().dom().contains(
                    items_model(w.entry_items())[i].0,
                ) && 0 <= j < w.dep_map()[items_model(w.entry_items())[i].0].len()
                    && w.dep_map().dom().contains(
                    w.dep_map()[items_model(w.entry_items())[i].0][j],
                ) implies items_model(w.entry_items())[i].1.contains(
                w.dep_map()[items_model(w.entry_items())[i].0][j],
            ) by {
                let it = w.entries@[i];
                assert(it.deps.deep_view() == w.dep_map()[it.path@]);
            }
        }
        Ok(w)
    }

    /// One poll round.  The round expands the entry set against the
    /// snapshot, classifies every entry and every walked dependency against
    /// the previous round's record, re-ingests entries whose text changed,
    /// and leaves reconciled entry snapshots and a record holding the
    /// current fingerprint of every walked file.
    pub fn make_changes(&mut self, fs: &FsView, old_cache: &CacheMap) -> (r: Result<
        (Vec<EntryChange>, CacheMap),
        WatchError,
    >)
        requires
            fs_wf(*fs),
            inner_inv(*old(self)),
            fs.files@.len() < 0xffff_ffff_ffff_ffff,
        ensures
            final(self).setup_options == old(self).setup_options,
            final(self).opts_of() == old(self).opts_of(),
            final(self).cache_dir == old(self).cache_dir,
            deps_closed(final(self).opts_of(), final(self).dep_map()),
            deps_nodup(final(self).dep_map()),
            keys_module(final(self).opts_of(), final(self).dep_map()),
            r matches Ok(p) ==> inner_inv(*final(self)),
            r matches Ok(p) ==> entries_reconciled(
                final(self).dep_map(),
                items_model(final(self).entry_items()),
            ),
            r matches Ok(p) ==> cache_fingerprints(*fs, p.1@),
            r matches Ok(p) ==> forall|j: int|
                0 <= j < watch_candidates(*fs, *old(self)).len()
                    ==> final(self).dep_map().contains_key(
                    #[trigger] watch_candidates(*fs, *old(self))[j],
                ) || skippable(final(self).opts_of(), watch_candidates(*fs, *old(self))[j]),
            r matches Ok(p) ==> (settled_pre(*fs, *old(self), old_cache@) ==> changes_model(p.0@)
                == round_changes(*fs, old_cache@, items_model(old(self).entry_items()))
                && final(self).dep_map() == old(self).dep_map()),
            r matches Ok(p) ==> (settled_pre(*fs, *old(self), old_cache@) ==> cache_covers(
                p.1@,
                items_model(final(self).entry_items()),
            )),
            watch_patterns_ok(
                old(self).setup_options.glob_entries,
                old(self).setup_options.project_root@,
            ) && settled_pre(*fs, *old(self), old_cache@) ==> r is Ok,
            r matches Ok(p) ==> forall|t: int|
                0 <= t < changes_model(p.0@).len() ==> crate::changes::change_shape(
                    #[trigger] changes_model(p.0@)[t],
                ),
    {
        let ghost w0 = *old(self);
        let ghost opts = self.make_entries_opts;
        let ghost cands = watch_candidates(*fs, *self);
        // bring newly matching files in
        let entries_vec: Vec<String> = match &self.setup_options.entries {
            Some(v) => clone_paths(v),
            None => Vec::new(),
        };
        proof {
            assert(opt_paths_model(self.setup_options.entries) =~= entries_vec.deep_view());
        }
        let globs_ref = self.setup_options.glob_entries.as_ref();
        proof {
            assert((match globs_ref {
                Some(g) => g.deep_view(),
                None => Seq::<Seq<char>>::empty(),
            }) =~= opt_paths_model(w0.setup_options.glob_entries));
            assert(crate::entry::patterns_ok(globs_ref, w0.setup_options.project_root@)
                == watch_patterns_ok(
                w0.setup_options.glob_entries,
                w0.setup_options.project_root@,
            ));
            assert(cands == crate::entry::round_candidates(
                *fs,
                entries_vec,
                globs_ref,
                w0.setup_options.project_root@,
            ));
        }
        let new_items = match make_missing_entries(
            fs,
            entries_vec,
            globs_ref,
            self.setup_options.project_root.as_str(),
            &mut self.store,
            &self.make_entries_opts,
        ) {
            Ok(items) => items,
            Err(e) => {
                proof {
                    // a patterned, quiet round cannot fail here: every
                    // untracked candidate is skippable, so the expansion
                    // model reports no fault
                    if watch_patterns_ok(
                        w0.setup_options.glob_entries,
                        w0.setup_options.project_root@,
                    ) && settled_pre(*fs, w0, old_cache@) {
                        let kept = crate::entry::untracked_candidates(w0.dep_map(), cands, 0);
                        crate::entry::lemma_untracked_elems(w0.dep_map(), cands, 0);
                        assert forall|j: int| 0 <= j < kept.len() implies skippable(
                            opts,
                            #[trigger] kept[j],
                        ) by {
                            let c = kept[j];
                            assert(cands.contains(c));
                            let w = choose|w: int| 0 <= w < cands.len() && cands[w] == c;
                            assert(w0.dep_map().contains_key(cands[w]) || skippable(
                                w0.opts_of(),
                                cands[w],
                            ));
                        }
                        crate::entry::lemma_expand_skippable(
                            *fs,
                            opts,
                            w0.setup_options.project_root@,
                            w0.dep_map(),
                            kept,
                            0,
                            fs.files@.len() + 1,
                        );
                        assert(false);
                    }
                }
                return Err(e);
            },
        };
        let ghost m_exp = self.store@;
        proof {
            // the call's candidate expression is this watcher's candidate set
            assert((match globs_ref {
                Some(g) => g.deep_view(),
                None => Seq::<Seq<char>>::empty(),
            }) =~= opt_paths_model(w0.setup_options.glob_entries));
            assert(cands == crate::entry::round_candidates(
                *fs,
                entries_vec,
                globs_ref,
                w0.setup_options.project_root@,
            ));
            // the old entries stay tracked and covered in the grown store
            assert forall|i: int|
                0 <= i < items_model(self.entries@).len() implies m_exp.dom().contains(
                #[trigger] items_model(self.entries@)[i].0,
            ) by {
                assert(self.entries@ == w0.entry_items());
                assert(items_model(self.entries@)[i].0 == items_model(w0.entry_items())[i].0);
                assert(w0.dep_map().dom().contains(items_model(w0.entry_items())[i].0));
                assert(w0.dep_map().dom().subset_of(m_exp.dom()));
            }
            assert forall|i: int, j: int|
                #![trigger m_exp[items_model(self.entries@)[i].0][j]]
                0 <= i < items_model(self.entries@).len() && m_exp.dom().contains(
                    items_model(self.entries@)[i].0,
                ) && 0 <= j < m_exp[items_model(self.entries@)[i].0].len() && m_exp.dom().contains(
                    m_exp[items_model(self.entries@)[i].0][j],
                ) implies items_model(self.entries@)[i].1.contains(
                m_exp[items_model(self.entries@)[i].0][j],
            ) by {
                let p = items_model(self.entries@)[i].0;
                let m0 = w0.dep_map();
                assert(m0.dom().contains(p));
                assert(m_exp[p] == m0[p]);
                let d = m_exp[p][j];
                if m0.dom().contains(d) {
                    assert(items_model(self.entries@)[i].1.contains(m0[p][j]));
                } else {
                    // a dependency missing from the old store is no module
                    // path, and the expansion added module paths only
                    assert(m0.dom().contains(m0[p][j]) || !is_module_path(
                        self.make_entries_opts,
                        m0[p][j],
                    ));
                    assert(!m_exp.dom().contains(d));
                }
            }
        }
        let mut qi: usize = 0;
        while qi < new_items.len()
            invariant
                w0 == *old(self),
                qi <= new_items@.len(),
                self.setup_options == w0.setup_options,
                self.make_entries_opts == w0.make_entries_opts,
                self.cache_dir == w0.cache_dir,
                self.store@ == m_exp,
                new_items@.len() == 0 ==> self.entries@ == w0.entry_items(),
                forall|i: int|
                    0 <= i < new_items@.len() ==> self.store@.contains_key(
                        #[trigger] new_items@[i].path@,
                    ) && new_items@[i].deps.deep_view() == self.store@[new_items@[i].path@],
                entries_tracked(self.store@, items_model(self.entries@)),
                entries_cover(self.store@, items_model(self.entries@)),
            decreases new_items@.len() - qi,
        {
            let ghost pre_items = self.entries@;
            self.entries.push(new_items[qi].clone_item());
            proof {
                assert forall|i: int|
                    0 <= i < items_model(self.entries@).len() implies self.store@.dom().contains(
                    #[trigger] items_model(self.entries@)[i].0,
                ) by {
                    assert(items_model(self.entries@)[i].0 == self.entries@[i].path@);
                    if i < pre_items.len() {
                        assert(self.entries@[i] == pre_items[i]);
                        assert(items_model(pre_items)[i].0 == pre_items[i].path@);
                    } else {
                        assert(self.entries@[i].path@ == new_items@[qi as int].path@);
                        assert(self.store@.contains_key(new_items@[qi as int].path@));
                    }
                }
                assert forall|i: int, j: int|
                    #![trigger self.store@[items_model(self.entries@)[i].0][j]]
                    0 <= i < items_model(self.entries@).len() && self.store@.dom().contains(
                        items_model(self.entries@)[i].0,
                    ) && 0 <= j < self.store@[items_model(self.entries@)[i].0].len()
                        && self.store@.dom().contains(
                        self.store@[items_model(self.entries@)[i].0][j],
                    ) implies items_model(self.entries@)[i].1.contains(
                    self.store@[items_model(self.entries@)[i].0][j],
                ) by {
                    if i < pre_items.len() {
                        assert(self.entries@[i] == pre_items[i]);
                        assert(items_model(pre_items)[i] == items_model(self.entries@)[i]);
                    } else {
                        assert(self.entries@[i].path@ == new_items@[qi as int].path@);
                        assert(self.entries@[i].deps.deep_view()
                            == new_items@[qi as int].deps.deep_view());
                        assert(items_model(self.entries@)[i].1
                            == self.store@[items_model(self.entries@)[i].0]);
                    }
                }
            }
            qi = qi + 1;
        }
        // classify every entry and its dependencies
        let ghost es = self.entries@;
        proof {
            if settled_pre(*fs, w0, old_cache@) {
                assert(m_exp == w0.dep_map());
                assert(es == w0.entry_items());
            }
        }
        let mut changes: Vec<EntryChange> = Vec::new();
        let mut new_cache = CacheMap::new();
        let ghost mut walked: Seq<(Seq<char>, Seq<Seq<char>>)> = Seq::empty();
        proof {
            assert(changes_model(changes@) =~= round_changes(*fs, old_cache@, walked));
        }
        let n = self.entries.len();
        let mut ei: usize = 0;
        while ei < n
            invariant
                w0 == *old(self),
                fs_wf(*fs),
                fs.files@.len() < 0xffff_ffff_ffff_ffff,
                ei <= n,
                n == self.entries@.len(),
                self.entries@ == es,
                self.setup_options == w0.setup_options,
                self.make_entries_opts == w0.make_entries_opts,
                self.cache_dir == w0.cache_dir,
                deps_closed(self.make_entries_opts, self.store@),
                deps_nodup(self.store@),
                keys_module(self.make_entries_opts, self.store@),
                entries_tracked(self.store@, items_model(es)),
                cands == watch_candidates(*fs, w0),
                forall|j: int|
                    0 <= j < cands.len() ==> self.store@.contains_key(#[trigger] cands[j])
                        || skippable(self.make_entries_opts, cands[j]),
                cache_fingerprints(*fs, new_cache@),
                walked.len() == ei,
                changes_model(changes@) == round_changes(*fs, old_cache@, walked),
                settled_pre(*fs, w0, old_cache@) ==> self.store@ == w0.dep_map() && es
                    == w0.entry_items() && walked == items_model(es).take(ei as int),
                settled_pre(*fs, w0, old_cache@) ==> forall|i: int|
                    0 <= i < ei ==> new_cache@.contains_key(#[trigger] items_model(es)[i].0),
                settled_pre(*fs, w0, old_cache@) ==> forall|i: int, t: int|
                    0 <= i < ei && 0 <= t < items_model(es)[i].1.len()
                        ==> new_cache@.contains_key(#[trigger] items_model(es)[i].1[t]),
            decreases n - ei,
        {
            let ghost base = changes_model(changes@);
            let epath = self.entries[ei].path.clone();
            proof {
                assert(epath@ == items_model(es)[ei as int].0);
            }
            let (eck, est) = get_file_state(fs, epath.as_str(), old_cache);
            let ghost est_s = state_of(*fs, old_cache@, epath@).1;
            proof {
                if settled_pre(*fs, w0, old_cache@) {
                    assert(items_model(w0.entry_items())[ei as int].0 == epath@);
                    assert(!(est_s is Modified));
                }
            }
            let deps: Vec<String> = if matches!(est, FileState::Modified) {
                proof {
                    assert(self.store@.dom().contains(epath@));
                    assert(is_module_path(self.make_entries_opts, epath@));
                    assert(crate::fsview::fs_has(*fs, epath@));
                }
                let ghost m_pre = self.store@;
                self.store.remove(epath.as_str());
                proof {
                    assert forall|k: Seq<char>, j: int|
                        self.store@.dom().contains(k) && 0 <= j < self.store@[k].len() implies
                        self.store@.dom().contains(#[trigger] self.store@[k][j]) || self.store@[k][j]
                        == epath@ || !is_module_path(self.make_entries_opts, self.store@[k][j]) by {
                        assert(m_pre.dom().contains(k));
                        assert(self.store@[k] == m_pre[k]);
                        assert(m_pre.dom().contains(m_pre[k][j]) || !is_module_path(
                            self.make_entries_opts,
                            m_pre[k][j],
                        ));
                    }
                }
                let ghost m_rm = self.store@;
                let reingested = make_file_item(
                    fs,
                    epath.as_str(),
                    self.setup_options.project_root.as_str(),
                    &mut self.store,
                    &self.make_entries_opts,
                );
                proof {
                    // the entry's placeholder went back in, restoring full
                    // closedness, and every added key is a module path
                    assert(self.store@.contains_key(epath@));
                    assert(deps_closed(self.make_entries_opts, self.store@));
                    assert forall|k: Seq<char>| #[trigger]
                        self.store@.dom().contains(k) implies is_module_path(
                        self.make_entries_opts,
                        k,
                    ) by {
                        if m_rm.dom().contains(k) {
                            assert(m_pre.dom().contains(k));
                        }
                    }
                }
                match reingested {
                    Ok(Some(d)) => {
                        proof {
                            assert forall|j: int|
                                0 <= j < cands.len() implies self.store@.contains_key(
                                #[trigger] cands[j],
                            ) || skippable(self.make_entries_opts, cands[j]) by {
                                if cands[j] != epath@ {
                                    if m_pre.contains_key(cands[j]) {
                                        assert(m_pre.remove(epath@).contains_key(cands[j]));
                                    }
                                }
                            }
                            assert forall|i: int|
                                0 <= i < items_model(es).len() implies self.store@.dom().contains(
                                #[trigger] items_model(es)[i].0,
                            ) by {
                                if items_model(es)[i].0 != epath@ {
                                    assert(m_pre.remove(epath@).contains_key(items_model(es)[i].0));
                                }
                            }
                        }
                        d
                    },
                    Ok(None) => {
                        return Err(WatchError::EntryUntracked(epath));
                    },
                    Err(e) => {
                        return Err(e);
                    },
                }
            } else {
                let snap = clone_paths(&self.entries[ei].deps);
                proof {
                    assert(snap.deep_view() == items_model(es)[ei as int].1);
                }
                snap
            };
            let ghost ds = deps.deep_view();
            let ghost cache_pre = new_cache@;
            new_cache.set(epath.clone(), eck);
            if !matches!(est, FileState::NotModified) {
                let ch = EntryChange {
                    change_type: entry_change_type_of(est),
                    entry: epath.clone(),
                    cause: None,
                    tree: None,
                };
                proof {
                    crate::changes::lemma_changes_model_push(changes@, ch);
                }
                changes.push(ch);
                proof {
                    assert(change_model(ch) == (ChangeModel {
                        change_type: entry_change_type(est_s),
                        entry: epath@,
                        cause: None,
                        tree: None,
                    }));
                    assert(changes_model(changes@) =~= base + seq![change_model(ch)]);
                }
            } else {
                proof {
                    assert(changes_model(changes@) =~= base + Seq::<ChangeModel>::empty());
                }
            }
            proof {
                let head: Seq<ChangeModel> = if est_s is NotModified {
                    Seq::empty()
                } else {
                    seq![
                        ChangeModel {
                            change_type: entry_change_type(est_s),
                            entry: epath@,
                            cause: None,
                            tree: None,
                        },
                    ]
                };
                assert(changes_model(changes@) == base + head);
                assert((base + head) + dep_changes_from(*fs, old_cache@, epath@, ds, 0) =~= base
                    + entry_changes(*fs, old_cache@, epath@, ds));
            }
            let mut di: usize = 0;
            while di < deps.len()
                invariant
                    fs_wf(*fs),
                    di <= deps@.len(),
                    ds == deps.deep_view(),
                    cache_fingerprints(*fs, new_cache@),
                    cache_pre.dom().subset_of(new_cache@.dom()),
                    new_cache@.contains_key(epath@),
                    forall|t: int| 0 <= t < di ==> new_cache@.contains_key(#[trigger] ds[t]),
                    changes_model(changes@) + dep_changes_from(
                        *fs,
                        old_cache@,
                        epath@,
                        ds,
                        di as nat,
                    ) == base + entry_changes(*fs, old_cache@, epath@, ds),
                decreases deps@.len() - di,
            {
                let d = deps[di].clone();
                let (dck, dst) = get_file_state(fs, d.as_str(), old_cache);
                let ghost dst_s = state_of(*fs, old_cache@, ds[di as int]).1;
                proof {
                    assert(d@ == ds[di as int]);
                }
                new_cache.set(d.clone(), dck);
                if !matches!(dst, FileState::NotModified) {
                    let mut tree: Vec<String> = Vec::new();
                    let mut tk = di + 1;
                    while tk > 0
                        invariant
                            tk <= di + 1,
                            di < deps@.len(),
                            ds == deps.deep_view(),
                            tree@.len() == di + 1 - tk,
                            forall|x: int|
                                0 <= x < tree@.len() ==> #[trigger] tree@[x]@ == deps@[di - x]@,
                        decreases tk,
                    {
                        tree.push(deps[tk - 1].clone());
                        tk = tk - 1;
                    }
                    tree.push(epath.clone());
                    proof {
                        let t = seq![epath@] + ds.take(di as int + 1);
                        assert(t.len() == di + 2);
                        assert forall|x: int| 0 <= x < tree.deep_view().len() implies
                            tree.deep_view()[x] == tree_at(epath@, ds, di as int)[x] by {
                            assert(t.reverse()[x] == t[t.len() - 1 - x]);
                            if x < di + 1 {
                                assert(tree@[x]@ == deps@[di - x]@);
                                assert(t[di + 1 - x] == ds.take(di as int + 1)[di - x]);
                            } else {
                                assert(tree@[x]@ == epath@);
                                assert(t[0] == epath@);
                            }
                        }
                        assert(tree.deep_view() =~= tree_at(epath@, ds, di as int));
                    }
                    let ch = EntryChange {
                        change_type: dep_change_type_of(dst),
                        entry: epath.clone(),
                        cause: Some(EntryChangeCause { file: d.clone(), state: dst }),
                        tree: Some(tree),
                    };
                    proof {
                        crate::changes::lemma_changes_model_push(changes@, ch);
                    }
                    let ghost pre_model = changes_model(changes@);
                    changes.push(ch);
                    proof {
                        let cm = ChangeModel {
                            change_type: dep_change_type(dst_s),
                            entry: epath@,
                            cause: Some((ds[di as int], dst_s)),
                            tree: Some(tree_at(epath@, ds, di as int)),
                        };
                        assert(change_model(ch) == cm);
                        assert(dep_changes_from(*fs, old_cache@, epath@, ds, di as nat) == seq![cm]
                            + dep_changes_from(*fs, old_cache@, epath@, ds, di as nat + 1));
                        assert(pre_model.push(cm) + dep_changes_from(
                            *fs,
                            old_cache@,
                            epath@,
                            ds,
                            di as nat + 1,
                        ) =~= pre_model + (seq![cm] + dep_changes_from(
                            *fs,
                            old_cache@,
                            epath@,
                            ds,
                            di as nat + 1,
                        )));
                    }
                }
                di = di + 1;
            }
            proof {
                assert(dep_changes_from(*fs, old_cache@, epath@, ds, deps@.len() as nat) =~= Seq::<
                    ChangeModel,
                >::empty());
                assert(changes_model(changes@) + Seq::<ChangeModel>::empty() =~= changes_model(
                    changes@,
                ));
                crate::changes::lemma_round_push(*fs, old_cache@, walked, (epath@, ds));
                walked = walked.push((epath@, ds));
                if settled_pre(*fs, w0, old_cache@) {
                    assert(items_model(es).take(ei as int + 1) =~= items_model(es).take(
                        ei as int,
                    ).push(items_model(es)[ei as int]));
                    assert((epath@, ds) == items_model(es)[ei as int]);
                    // the round's record keeps what earlier entries put in
                    assert(cache_pre.dom().subset_of(new_cache@.dom()));
                    assert forall|i: int| 0 <= i < ei + 1 implies new_cache@.contains_key(
                        #[trigger] items_model(es)[i].0,
                    ) by {
                        if i < ei {
                            assert(cache_pre.contains_key(items_model(es)[i].0));
                            assert(cache_pre.dom().contains(items_model(es)[i].0));
                        } else {
                            assert(items_model(es)[i].0 == epath@);
                        }
                    }
                    assert forall|i: int, t: int|
                        0 <= i < ei + 1 && 0 <= t < items_model(es)[i].1.len() implies
                        new_cache@.contains_key(#[trigger] items_model(es)[i].1[t]) by {
                        if i < ei {
                            assert(cache_pre.contains_key(items_model(es)[i].1[t]));
                            assert(cache_pre.dom().contains(items_model(es)[i].1[t]));
                        } else {
                            assert(items_model(es)[i].1 == ds);
                        }
                    }
                }
            }
            ei = ei + 1;
        }
        proof {
            if settled_pre(*fs, w0, old_cache@) {
                assert(items_model(es).take(n as int) =~= items_model(es));
                assert(changes_model(changes@) == round_changes(
                    *fs,
                    old_cache@,
                    items_model(w0.entry_items()),
                ));
            }
            crate::changes::lemma_round_changes_shape(*fs, old_cache@, walked, 0);
        }
        // reconcile the entry snapshots from the store
        let mut new_entries: Vec<FileItem> = Vec::new();
        let mut ri: usize = 0;
        while ri < self.entries.len()
            invariant
                w0 == *old(self),
                inner_inv(w0),
                ri <= self.entries@.len(),
                n == self.entries@.len(),
                self.entries@ == es,
                cache_fingerprints(*fs, new_cache@),
                settled_pre(*fs, w0, old_cache@) ==> self.store@ == w0.dep_map() && es
                    == w0.entry_items(),
                settled_pre(*fs, w0, old_cache@) ==> forall|i: int|
                    0 <= i < n ==> new_cache@.contains_key(#[trigger] items_model(es)[i].0),
                settled_pre(*fs, w0, old_cache@) ==> forall|i: int, t: int|
                    0 <= i < n && 0 <= t < items_model(es)[i].1.len() ==> new_cache@.contains_key(
                        #[trigger] items_model(es)[i].1[t],
                    ),
                forall|t: int|
                    0 <= t < new_entries@.len() ==> {
                        &&& self.store@.dom().contains(#[trigger] new_entries@[t].path@)
                        &&& new_entries@[t].deps.deep_view() == filter_tracked(
                            self.store@,
                            self.store@[new_entries@[t].path@],
                            0,
                        )
                    },
                settled_pre(*fs, w0, old_cache@) ==> forall|t: int|
                    0 <= t < new_entries@.len() ==> new_cache@.contains_key(
                        #[trigger] new_entries@[t].path@,
                    ),
                settled_pre(*fs, w0, old_cache@) ==> forall|t: int, u: int|
                    0 <= t < new_entries@.len() && 0 <= u < new_entries@[t].deps.deep_view().len()
                        ==> new_cache@.contains_key(
                        #[trigger] new_entries@[t].deps.deep_view()[u],
                    ),
            decreases self.entries@.len() - ri,
        {
            match self.store.get(self.entries[ri].path.as_str()) {
                Some(sdeps) => {
                    let mut fdeps: Vec<String> = Vec::new();
                    let mut fj: usize = 0;
                    proof {
                        assert(sdeps.deep_view() == self.store@[self.entries@[ri as int].path@]);
                    }
                    while fj < sdeps.len()
                        invariant
                            fj <= sdeps@.len(),
                            fdeps.deep_view() + filter_tracked(
                                self.store@,
                                sdeps.deep_view(),
                                fj as nat,
                            ) =~= filter_tracked(self.store@, sdeps.deep_view(), 0),
                        decreases sdeps@.len() - fj,
                    {
                        if self.store.contains_key(sdeps[fj].as_str()) {
                            let ghost prevf = fdeps.deep_view();
                            fdeps.push(sdeps[fj].clone());
                            proof {
                                assert(fdeps.deep_view() =~= prevf.push(
                                    sdeps.deep_view()[fj as int],
                                ));
                                assert(prevf.push(sdeps.deep_view()[fj as int]) + filter_tracked(
                                    self.store@,
                                    sdeps.deep_view(),
                                    fj as nat + 1,
                                ) =~= prevf + filter_tracked(
                                    self.store@,
                                    sdeps.deep_view(),
                                    fj as nat,
                                ));
                            }
                        }
                        fj = fj + 1;
                    }
                    proof {
                        assert(filter_tracked(self.store@, sdeps.deep_view(), sdeps@.len() as nat)
                            =~= Seq::<Seq<char>>::empty());
                        assert(fdeps.deep_view() + Seq::<Seq<char>>::empty() =~= fdeps.deep_view());
                    }
                    proof {
                        if settled_pre(*fs, w0, old_cache@) {
                            let p = self.entries@[ri as int].path@;
                            assert(items_model(es)[ri as int].0 == p);
                            assert(new_cache@.contains_key(p));
                            lemma_filter_tracked(self.store@, sdeps.deep_view(), 0);
                            assert forall|u: int|
                                0 <= u < fdeps.deep_view().len() implies new_cache@.contains_key(
                                #[trigger] fdeps.deep_view()[u],
                            ) by {
                                let d = fdeps.deep_view()[u];
                                assert(self.store@.dom().contains(d));
                                assert(sdeps.deep_view().contains(d));
                                assert(self.store@[items_model(es)[ri as int].0].contains(d));
                                let t = choose|t: int|
                                    0 <= t < self.store@[items_model(es)[ri as int].0].len()
                                        && self.store@[items_model(es)[ri as int].0][t] == d;
                                assert(items_model(es)[ri as int].1.contains(d)) by {
                                    assert(entries_cover(w0.dep_map(), items_model(
                                        w0.entry_items(),
                                    )));
                                    assert(w0.dep_map()[items_model(es)[ri as int].0][t] == d);
                                }
                                let u2 = choose|u2: int|
                                    0 <= u2 < items_model(es)[ri as int].1.len()
                                        && items_model(es)[ri as int].1[u2] == d;
                                assert(new_cache@.contains_key(items_model(es)[ri as int].1[u2]));
                            }
                        }
                    }
                    let item = FileItem { path: self.entries[ri].path.clone(), deps: fdeps };
                    new_entries.push(item);
                },
                None => {},
            }
            ri = ri + 1;
        }
        self.entries = new_entries;
        proof {
            assert forall|i: int|
                0 <= i < items_model(self.entries@).len() implies self.store@.dom().contains(
                #[trigger] items_model(self.entries@)[i].0,
            ) && items_model(self.entries@)[i].1 == filter_tracked(
                self.store@,
                self.store@[items_model(self.entries@)[i].0],
                0,
            ) by {
                assert(self.entries@[i].path@ == items_model(self.entries@)[i].0);
            }
            assert forall|i: int, j: int|
                #![trigger self.store@[items_model(self.entries@)[i].0][j]]
                0 <= i < items_model(self.entries@).len() && self.store@.dom().contains(
                    items_model(self.entries@)[i].0,
                ) && 0 <= j < self.store@[items_model(self.entries@)[i].0].len()
                    && self.store@.dom().contains(
                    self.store@[items_model(self.entries@)[i].0][j],
                ) implies items_model(self.entries@)[i].1.contains(
                self.store@[items_model(self.entries@)[i].0][j],
            ) by {
                let p = items_model(self.entries@)[i].0;
                let ds = self.store@[p];
                lemma_filter_member(self.store@, ds, 0, j);
                assert(items_model(self.entries@)[i].1 == filter_tracked(self.store@, ds, 0));
            }
            if settled_pre(*fs, w0, old_cache@) {
                assert forall|i: int|
                    0 <= i < items_model(self.entries@).len() implies new_cache@.contains_key(
                    #[trigger] items_model(self.entries@)[i].0,
                ) by {
                    assert(items_model(self.entries@)[i].0 == self.entries@[i].path@);
                }
                assert forall|i: int, j: int|
                    0 <= i < items_model(self.entries@).len() && 0 <= j < items_model(
                        self.entries@,
                    )[i].1.len() implies new_cache@.contains_key(
                    #[trigger] items_model(self.entries@)[i].1[j],
                ) by {
                    assert(items_model(self.entries@)[i].1 == self.entries@[i].deps.deep_view());
                }
            }
        }
        Ok((changes, new_cache))
    }

    /// Stops tracking one dependency: its own record goes, and every other
    /// record loses it.  The entry snapshots keep their text until the next
    /// round reconciles them.
    #[verifier::rlimit(60)]
    pub fn remove_dep(&mut self, dep: &str)
        ensures
            final(self).dep_map().dom() == old(self).dep_map().dom().remove(dep@),
            forall|k: Seq<char>, x: Seq<char>|
                #![trigger final(self).dep_map()[k].contains(x)]
                final(self).dep_map().dom().contains(k) ==> (final(self).dep_map()[k].contains(x)
                    <==> (old(self).dep_map()[k].contains(x) && x != dep@)),
            final(self).entry_items() == old(self).entry_items(),
            final(self).setup_options == old(self).setup_options,
            final(self).opts_of() == old(self).opts_of(),
            final(self).cache_dir == old(self).cache_dir,
    {
        let ghost m0 = self.store@;
        self.store.remove(dep);
        let keys = self.store.keys();
        let ghost m_rm = self.store@;
        let mut i: usize = 0;
        while i < keys.len()
            invariant
                i <= keys@.len(),
                keys.deep_view().to_set() == m_rm.dom(),
                keys.deep_view().no_duplicates(),
                self.store@.dom() == m_rm.dom(),
                m_rm == m0.remove(dep@),
                self.entries@ == old(self).entries@,
                self.setup_options == old(self).setup_options,
                self.make_entries_opts == old(self).make_entries_opts,
                self.cache_dir == old(self).cache_dir,
                forall|k: Seq<char>|
                    #[trigger] m_rm.dom().contains(k) && !keys.deep_view().take(i as int).contains(
                        k,
                    ) ==> self.store@[k] == m0[k],
                forall|k: Seq<char>, x: Seq<char>|
                    #![trigger self.store@[k].contains(x)]
                    m_rm.dom().contains(k) && keys.deep_view().take(i as int).contains(k) ==> (
                    self.store@[k].contains(x) <==> (m0[k].contains(x) && x != dep@)),
            decreases keys@.len() - i,
        {
            let key = &keys[i];
            proof {
                assert(keys.deep_view()[i as int] == key@);
                assert(keys.deep_view().contains(key@));
                assert(m_rm.dom().contains(key@));
            }
            let old_deps = match self.store.get(key.as_str()) {
                Some(d) => d,
                None => {
                    proof {
                        assert(false);
                    }
                    Vec::new()
                },
            };
            let mut kept: Vec<String> = Vec::new();
            let mut j: usize = 0;
            while j < old_deps.len()
                invariant
                    j <= old_deps@.len(),
                    forall|x: Seq<char>|
                        kept.deep_view().contains(x) <==> (old_deps.deep_view().take(
                            j as int,
                        ).contains(x) && x != dep@),
                decreases old_deps@.len() - j,
            {
                if !crate::strutil::str_eq(old_deps[j].as_str(), dep) {
                    let ghost prevk = kept.deep_view();
                    kept.push(old_deps[j].clone());
                    proof {
                        assert(kept.deep_view() =~= prevk.push(old_deps.deep_view()[j as int]));
                        assert forall|x: Seq<char>|
                            kept.deep_view().contains(x) <==> (old_deps.deep_view().take(
                                j as int + 1,
                            ).contains(x) && x != dep@) by {
                            if kept.deep_view().contains(x) {
                                let w = choose|w: int|
                                    0 <= w < kept.deep_view().len() && kept.deep_view()[w] == x;
                                if w < prevk.len() {
                                    assert(prevk[w] == x);
                                    assert(prevk.contains(x));
                                    let u = choose|u: int|
                                        0 <= u < j && old_deps.deep_view().take(j as int)[u] == x;
                                    assert(old_deps.deep_view().take(j as int + 1)[u] == x);
                                } else {
                                    assert(x == old_deps.deep_view()[j as int]);
                                    assert(old_deps.deep_view().take(j as int + 1)[j as int] == x);
                                }
                            }
                            if old_deps.deep_view().take(j as int + 1).contains(x) && x != dep@ {
                                let u = choose|u: int|
                                    0 <= u < j + 1 && #[trigger] old_deps.deep_view().take(
                                        j as int + 1,
                                    )[u] == x;
                                if u < j {
                                    assert(old_deps.deep_view().take(j as int)[u] == x);
                                    assert(prevk.contains(x));
                                    let w = choose|w: int|
                                        0 <= w < prevk.len() && prevk[w] == x;
                                    assert(kept.deep_view()[w] == x);
                                } else {
                                    assert(kept.deep_view()[kept.deep_view().len() - 1] == x);
                                }
                            }
                        }
                    }
                } else {
                    proof {
                        assert forall|x: Seq<char>|
                            kept.deep_view().contains(x) <==> (old_deps.deep_view().take(
                                j as int + 1,
                            ).contains(x) && x != dep@) by {
                            if old_deps.deep_view().take(j as int + 1).contains(x) && x != dep@ {
                                let u = choose|u: int|
                                    0 <= u < j + 1 && #[trigger] old_deps.deep_view().take(
                                        j as int + 1,
                                    )[u] == x;
                                assert(u < j);
                                assert(old_deps.deep_view().take(j as int)[u] == x);
                            }
                            if kept.deep_view().contains(x) {
                                let u = choose|u: int|
                                    0 <= u < j && old_deps.deep_view().take(j as int)[u] == x;
                                assert(old_deps.deep_view().take(j as int + 1)[u] == x);
                            }
                        }
                    }
                }
                j = j + 1;
            }
            proof {
                assert(old_deps.deep_view().take(old_deps@.len() as int) =~= old_deps.deep_view());
            }
            let ghost pre_ins = self.store@;
            self.store.insert(key.clone(), kept);
            proof {
                assert(self.store@.dom() =~= m_rm.dom());
                assert(keys.deep_view().take(i as int + 1).drop_last() =~= keys.deep_view().take(
                    i as int,
                ));
                assert(keys.deep_view().take(i as int + 1)[i as int] == key@);
                // this key had not been rewritten yet, so its old record was
                // still the original one
                assert(!keys.deep_view().take(i as int).contains(key@)) by {
                    if keys.deep_view().take(i as int).contains(key@) {
                        let w = choose|w: int|
                            0 <= w < i && #[trigger] keys.deep_view().take(i as int)[w] == key@;
                        assert(keys.deep_view()[w] == keys.deep_view()[i as int]);
                    }
                }
                assert(pre_ins[key@] == m0[key@]);
                assert(old_deps.deep_view() == m0[key@]);
                assert forall|k: Seq<char>, x: Seq<char>|
                    #![trigger self.store@[k].contains(x)]
                    m_rm.dom().contains(k) && keys.deep_view().take(i as int + 1).contains(
                        k,
                    ) implies (self.store@[k].contains(x) <==> (m0[k].contains(x) && x != dep@)) by {
                    if k != key@ {
                        let w = choose|w: int|
                            0 <= w < i + 1 && #[trigger] keys.deep_view().take(i as int + 1)[w]
                                == k;
                        assert(w < i);
                        assert(keys.deep_view().take(i as int)[w] == k);
                        assert(keys.deep_view().take(i as int).contains(k));
                        assert(self.store@[k] == pre_ins[k]);
                        assert(pre_ins[k].contains(x) <==> (m0[k].contains(x) && x != dep@));
                    } else {
                        assert(self.store@[k] == kept.deep_view());
                        assert(kept.deep_view().contains(x) <==> (old_deps.deep_view().contains(x)
                            && x != dep@));
                    }
                }
                assert forall|k: Seq<char>|
                    #[trigger] m_rm.dom().contains(k) && !keys.deep_view().take(
                        i as int + 1,
                    ).contains(k) implies self.store@[k] == m0[k] by {
                    assert(k != key@);
                    if keys.deep_view().take(i as int).contains(k) {
                        let w = choose|w: int|
                            0 <= w < i && #[trigger] keys.deep_view().take(i as int)[w] == k;
                        assert(keys.deep_view().take(i as int + 1)[w] == k);
                    }
                    assert(self.store@[k] == pre_ins[k]);
                }
            }
            i = i + 1;
        }
        proof {
            assert(keys.deep_view().take(keys@.len() as int) =~= keys.deep_view());
            assert forall|k: Seq<char>, x: Seq<char>|
                #![trigger self.store@[k].contains(x)]
                self.store@.dom().contains(k) implies (self.store@[k].contains(x) <==> (
                m0[k].contains(x) && x != dep@)) by {
                assert(keys.deep_view().to_set().contains(k));
                assert(keys.deep_view().contains(k));
                assert(keys.deep_view().take(keys@.len() as int).contains(k));
                assert(m_rm.dom().contains(k));
            }
        }
    }

    /// The project root and the directory of every tracked file, each once,
    /// in no promised order.
    pub fn get_dirs_to_watch(&self) -> (r: Vec<String>)
        ensures
            r.deep_view().contains(self.setup_options.project_root@),
            forall|t: int|
                0 <= t < r.deep_view().len() ==> #[trigger] r.deep_view()[t]
                    == self.setup_options.project_root@ || exists|k: Seq<char>|
                    self.dep_map().dom().contains(k) && crate::fsview::parent_spec(k) == Some(
                        r.deep_view()[t],
                    ),
            forall|k: Seq<char>|
                #[trigger] self.dep_map().dom().contains(k) && crate::fsview::parent_spec(k)
                    is Some ==> r.deep_view().contains(crate::fsview::parent_spec(k)->Some_0),
            r.deep_view().no_duplicates(),
    {
        let mut out: Vec<String> = Vec::new();
        out.push(self.setup_options.project_root.clone());
        proof {
            assert(out.deep_view()[0] == self.setup_options.project_root@);
        }
        let keys = self.store.keys();
        let mut i: usize = 0;
        while i < keys.len()
            invariant
                i <= keys@.len(),
                keys.deep_view().to_set() == self.dep_map().dom(),
                out.deep_view().len() >= 1,
                out.deep_view()[0] == self.setup_options.project_root@,
                forall|t: int|
                    0 <= t < out.deep_view().len() ==> #[trigger] out.deep_view()[t]
                        == self.setup_options.project_root@ || exists|k: Seq<char>|
                        self.dep_map().dom().contains(k) && crate::fsview::parent_spec(k) == Some(
                            out.deep_view()[t],
                        ),
                out.deep_view().no_duplicates(),
                forall|j: int|
                    0 <= j < i && crate::fsview::parent_spec(#[trigger] keys.deep_view()[j])
                        is Some ==> out.deep_view().contains(
                        crate::fsview::parent_spec(keys.deep_view()[j])->Some_0,
                    ),
            decreases keys@.len() - i,
        {
            proof {
                assert(keys.deep_view()[i as int] == keys@[i as int]@);
                assert(keys.deep_view().contains(keys.deep_view()[i as int]));
                assert(self.dep_map().dom().contains(keys.deep_view()[i as int]));
            }
            match crate::fsview::parent_dir(keys[i].as_str()) {
                Some(d) => {
                    if !crate::store::paths_contain(&out, d.as_str()) {
                        let ghost prevo = out.deep_view();
                        out.push(d);
                        proof {
                            assert(out.deep_view() =~= prevo.push(d@));
                            assert(out.deep_view()[out.deep_view().len() - 1] == prevo.push(d@)[
                                prevo.len() as int
                            ]);
                            assert(out.deep_view().contains(prevo.push(d@)[prevo.len() as int]));
                            assert forall|x: Seq<char>| prevo.contains(x) implies
                                out.deep_view().contains(x) by {
                                let w = choose|w: int| 0 <= w < prevo.len() && prevo[w] == x;
                                assert(out.deep_view()[w] == x);
                            }
                            assert forall|x: int, y: int|
                                0 <= x < y < out.deep_view().len() implies out.deep_view()[x]
                                != out.deep_view()[y] by {
                                if y == out.deep_view().len() - 1 {
                                    assert(!prevo.contains(out.deep_view()[y]));
                                }
                            }
                        }
                    }
                },
                None => {},
            }
            i = i + 1;
        }
        proof {
            assert forall|k: Seq<char>|
                #[trigger] self.dep_map().dom().contains(k) && crate::fsview::parent_spec(k)
                    is Some implies out.deep_view().contains(
                crate::fsview::parent_spec(k)->Some_0,
            ) by {
                assert(keys.deep_view().to_set().contains(k));
                assert(keys.deep_view().contains(k));
                let w = choose|w: int|
                    0 <= w < keys.deep_view().len() && keys.deep_view()[w] == k;
                assert(keys.deep_view()[w] == k);
            }
        }
        out
    }

    /// A snapshot of the entries whose tracked record names the given file,
    /// or that are the file itself, in entry order.
    pub fn get_entries_from_item(&self, item: &FileItem) -> (r: Vec<FileItem>)
        ensures
            items_model(r@) == entries_serving(
                items_model(self.entry_items()),
                self.dep_map(),
                item.path@,
            ),
    {
        let usage = item.get_usage(&self.store);
        let ghost src_items = items_model(self.entry_items());
        let mut r: Vec<FileItem> = Vec::new();
        let mut i: usize = 0;
        proof {
            assert(items_model(r@) + entries_serving(src_items, self.dep_map(), item.path@)
                =~= entries_serving(src_items, self.dep_map(), item.path@));
            assert(src_items.skip(0) =~= src_items);
        }
        while i < self.entries.len()
            invariant
                i <= self.entries@.len(),
                src_items == items_model(self.entry_items()),
                src_items.len() == self.entries@.len(),
                usage.deep_view().no_duplicates(),
                forall|t: int|
                    0 <= t < usage.deep_view().len() ==> {
                        let k = #[trigger] usage.deep_view()[t];
                        self.dep_map().dom().contains(k) && (k == item.path@
                            || self.dep_map()[k].contains(item.path@))
                    },
                forall|k: Seq<char>|
                    #[trigger] self.dep_map().dom().contains(k) && (k == item.path@
                        || self.dep_map()[k].contains(item.path@)) ==> usage.deep_view().contains(
                        k,
                    ),
                items_model(r@) + entries_serving(
                    src_items.skip(i as int),
                    self.dep_map(),
                    item.path@,
                ) == entries_serving(src_items, self.dep_map(), item.path@),
            decreases self.entries@.len() - i,
        {
            proof {
                assert(src_items.skip(i as int)[0] == src_items[i as int]);
                assert(src_items.skip(i as int).skip(1) =~= src_items.skip(i as int + 1));
                assert(src_items[i as int].0 == self.entries@[i as int].path@);
                assert(src_items[i as int].1 == self.entries@[i as int].deps.deep_view());
            }
            let hit = crate::store::paths_contain(&usage, self.entries[i].path.as_str());
            proof {
                let p = self.entries@[i as int].path@;
                if hit {
                    let w = choose|w: int|
                        0 <= w < usage.deep_view().len() && usage.deep_view()[w] == p;
                    assert(self.dep_map().dom().contains(usage.deep_view()[w]));
                } else {
                    if self.dep_map().dom().contains(p) && (p == item.path@
                        || self.dep_map()[p].contains(item.path@)) {
                        assert(usage.deep_view().contains(p));
                    }
                }
            }
            if hit {
                let ghost prev = items_model(r@);
                r.push(self.entries[i].clone_item());
                proof {
                    assert forall|x: int| 0 <= x < items_model(r@).len() implies items_model(r@)[x]
                        == prev.push(src_items[i as int])[x] by {
                        if x < prev.len() {
                            assert(r@[x] == r@.drop_last()[x]);
                        } else {
                            assert(r@[x].path@ == src_items[i as int].0);
                            assert(r@[x].deps.deep_view() == src_items[i as int].1);
                        }
                    }
                    assert(items_model(r@) =~= prev.push(src_items[i as int]));
                    assert(prev.push(src_items[i as int]) + entries_serving(
                        src_items.skip(i as int + 1),
                        self.dep_map(),
                        item.path@,
                    ) =~= prev + (seq![src_items[i as int]] + entries_serving(
                        src_items.skip(i as int + 1),
                        self.dep_map(),
                        item.path@,
                    )));
                }
            }
            i = i + 1;
        }
        proof {
            assert(src_items.skip(self.entries@.len() as int).len() == 0);
            assert(items_model(r@) + Seq::<(Seq<char>, Seq<Seq<char>>)>::empty() =~= items_model(
                r@,
            ));
        }
        r
    }

    /// A snapshot of the current entries.
    pub fn get_entries(&self) -> (r: Vec<FileItem>)
        ensures
            items_model(r@) == items_model(self.entry_items()),
    {
        let mut r: Vec<FileItem> = Vec::new();
        let mut i: usize = 0;
        while i < self.entries.len()
            invariant
                i <= self.entries@.len(),
                r@.len() == i,
                forall|j: int|
                    0 <= j < i ==> #[trigger] r@[j].path@ == self.entries@[j].path@
                        && r@[j].deps.deep_view() == self.entries@[j].deps.deep_view(),
            decreases self.entries@.len() - i,
        {
            r.push(self.entries[i].clone_item());
            i = i + 1;
        }
        proof {
            assert forall|j: int| 0 <= j < items_model(r@).len() implies items_model(r@)[j]
                == items_model(self.entry_items())[j] by {
                assert(r@[j].path@ == self.entries@[j].path@);
                assert(r@[j].deps.deep_view() == self.entries@[j].deps.deep_view());
            }
            assert(items_model(r@) =~= items_model(self.entry_items()));
        }
        r
    }
}

} // verus!

//! The dependency store.
//!
//! The store maps each tracked absolute path to the list of paths it
//! transitively depends on.  It is held in a `dashmap::DashMap`, the
//! concurrent map the watcher shares between workers; the library reasons
//! about it through `store_map`, the mathematical map of its contents, and a
//! small set of trusted operations whose contracts say how each call moves
//! that map.

use vstd::prelude::*;

use crate::strutil::str_eq;

verus! {

/// The concurrent map type the store lives in, declared for Verus; the
/// library never looks inside a value of it.
#[verifier::external_type_specification]
#[verifier::external_body]
#[verifier::reject_recursive_types(K)]
#[verifier::reject_recursive_types(V)]
#[verifier::reject_recursive_types(S)]
pub struct ExDashMap<K, V, S>(dashmap::DashMap<K, V, S>);

/// The contents of a store map: each tracked path to its dependency list.
pub uninterp spec fn store_map(m: dashmap::DashMap<String, Vec<String>>) -> Map<
    Seq<char>,
    Seq<Seq<char>>,
>;

/// Relies on dashmap::DashMap::contains_key: a key is present exactly when
/// the map holds an entry for it.
#[verifier::external_body]
fn dm_contains(m: &dashmap::DashMap<String, Vec<String>>, k: &str) -> (r: bool)
    ensures
        r == store_map(*m).contains_key(k@),
{
    m.contains_key(k)
}

/// Relies on dashmap::DashMap::get: the value a present key maps to, cloned.
#[verifier::external_body]
fn dm_get(m: &dashmap::DashMap<String, Vec<String>>, k: &str) -> (r: Option<Vec<String>>)
    ensures
        match r {
            Some(v) => store_map(*m).contains_key(k@) && v.deep_view() == store_map(*m)[k@],
            None => !store_map(*m).contains_key(k@),
        },
{
    m.get(k).map(|entry| entry.value().clone())
}

/// Relies on dashmap::DashMap::insert: the map afterwards holds `k` with
/// `v`, everything else unchanged.
#[verifier::external_body]
fn dm_insert(m: &mut dashmap::DashMap<String, Vec<String>>, k: String, v: Vec<String>)
    ensures
        store_map(*final(m)) == store_map(*old(m)).insert(k@, v.deep_view()),
{
    m.insert(k, v);
}

/// Relies on dashmap::DashMap::remove: the map afterwards no longer holds
/// `k`, everything else unchanged.
#[verifier::external_body]
fn dm_remove(m: &mut dashmap::DashMap<String, Vec<String>>, k: &str)
    ensures
        store_map(*final(m)) == store_map(*old(m)).remove(k@),
{
    m.remove(k);
}

/// Relies on dashmap::DashMap::iter: without concurrent writers the
/// iteration visits every key exactly once.
#[verifier::external_body]
fn dm_keys(m: &dashmap::DashMap<String, Vec<String>>) -> (r: Vec<String>)
    ensures
        r.deep_view().no_duplicates(),
        r.deep_view().to_set() == store_map(*m).dom(),
{
    let mut out: Vec<String> = Vec::new();
    for entry in m.iter() {
        out.push(entry.key().clone());
    }
    out
}

/// A tracked file: its path and the paths it transitively depends on.
#[derive(Debug)]
pub struct FileItem {
    pub path: String,
    pub deps: Vec<String>,
}

impl FileItem {
    /// A deep copy of this item.
    pub fn clone_item(&self) -> (r: FileItem)
        ensures
            r.path@ == self.path@,
            r.deps.deep_view() == self.deps.deep_view(),
    {
        let mut deps: Vec<String> = Vec::new();
        let mut i: usize = 0;
        while i < self.deps.len()
            invariant
                i <= self.deps@.len(),
                deps@.len() == i,
                forall|j: int| 0 <= j < i ==> #[trigger] deps@[j]@ == self.deps@[j]@,
            decreases self.deps@.len() - i,
        {
            deps.push(self.deps[i].clone());
            i = i + 1;
        }
        proof {
            assert forall|j: int| 0 <= j < deps.deep_view().len() implies deps.deep_view()[j]
                == self.deps.deep_view()[j] by {
                assert(deps@[j]@ == self.deps@[j]@);
            }
            assert(deps.deep_view() =~= self.deps.deep_view());
        }
        FileItem { path: self.path.clone(), deps }
    }

    /// The tracked files this one serves: every store key whose record names
    /// this file, and the file itself where tracked, each once, in no
    /// promised order.
    pub fn get_usage(&self, store: &Store) -> (r: Vec<String>)
        ensures
            forall|t: int|
                0 <= t < r.deep_view().len() ==> {
                    let k = #[trigger] r.deep_view()[t];
                    store@.dom().contains(k) && (k == self.path@ || store@[k].contains(self.path@))
                },
            forall|k: Seq<char>|
                #[trigger] store@.dom().contains(k) && (k == self.path@ || store@[k].contains(
                    self.path@,
                )) ==> r.deep_view().contains(k),
            r.deep_view().no_duplicates(),
    {
        let keys = store.keys();
        let mut out: Vec<String> = Vec::new();
        let mut i: usize = 0;
        while i < keys.len()
            invariant
                i <= keys@.len(),
                keys.deep_view().no_duplicates(),
                keys.deep_view().to_set() == store@.dom(),
                forall|t: int|
                    0 <= t < out.deep_view().len() ==> {
                        let k = #[trigger] out.deep_view()[t];
                        store@.dom().contains(k) && (k == self.path@ || store@[k].contains(
                            self.path@,
                        ))
                    },
                out.deep_view().no_duplicates(),
                forall|x: Seq<char>|
                    #[trigger] out.deep_view().contains(x) ==> keys.deep_view().take(
                        i as int,
                    ).contains(x),
                forall|j: int|
                    0 <= j < i && (#[trigger] keys.deep_view()[j] == self.path@
                        || store@[keys.deep_view()[j]].contains(self.path@))
                        ==> out.deep_view().contains(keys.deep_view()[j]),
            decreases keys@.len() - i,
        {
            let key = &keys[i];
            proof {
                assert(keys.deep_view()[i as int] == key@);
                assert(keys.deep_view().contains(key@));
                assert(store@.dom().contains(key@));
            }
            let hit = if str_eq(key.as_str(), self.path.as_str()) {
                true
            } else {
                match store.get(key.as_str()) {
                    Some(deps) => paths_contain(&deps, self.path.as_str()),
                    None => false,
                }
            };
            if hit {
                let ghost prevo = out.deep_view();
                out.push(key.clone());
                proof {
                    assert(out.deep_view() =~= prevo.push(key@));
                    assert(out.deep_view()[out.deep_view().len() - 1] == key@);
                    assert(out.deep_view().contains(key@));
                    assert forall|x: Seq<char>| prevo.contains(x) implies out.deep_view().contains(
                        x,
                    ) by {
                        let w = choose|w: int| 0 <= w < prevo.len() && prevo[w] == x;
                        assert(out.deep_view()[w] == x);
                    }
                    assert(!prevo.contains(key@)) by {
                        if prevo.contains(key@) {
                            let w = choose|w: int|
                                0 <= w < i && #[trigger] keys.deep_view().take(i as int)[w] == key@;
                            assert(keys.deep_view()[w] == keys.deep_view()[i as int]);
                        }
                    }
                    assert forall|x: int, y: int|
                        0 <= x < y < out.deep_view().len() implies out.deep_view()[x]
                        != out.deep_view()[y] by {
                        if y == out.deep_view().len() - 1 {
                            assert(!prevo.contains(out.deep_view()[y]));
                        }
                    }
                    assert forall|x: Seq<char>|
                        #[trigger] out.deep_view().contains(x) implies keys.deep_view().take(
                        i as int + 1,
                    ).contains(x) by {
                        let w = choose|w: int|
                            0 <= w < out.deep_view().len() && out.deep_view()[w] == x;
                        if w < prevo.len() {
                            assert(prevo[w] == x);
                            assert(prevo.contains(x));
                            let u = choose|u: int|
                                0 <= u < i && #[trigger] keys.deep_view().take(i as int)[u] == x;
                            assert(keys.deep_view().take(i as int + 1)[u] == x);
                        } else {
                            assert(keys.deep_view().take(i as int + 1)[i as int] == x);
                        }
                    }
                }
            } else {
                proof {
                    assert forall|x: Seq<char>|
                        #[trigger] out.deep_view().contains(x) implies keys.deep_view().take(
                        i as int + 1,
                    ).contains(x) by {
                        let u = choose|u: int|
                            0 <= u < i && #[trigger] keys.deep_view().take(i as int)[u] == x;
                        assert(keys.deep_view().take(i as int + 1)[u] == x);
                    }
                }
            }
            i = i + 1;
        }
        proof {
            assert forall|k: Seq<char>|
                #[trigger] store@.dom().contains(k) && (k == self.path@ || store@[k].contains(
                    self.path@,
                )) implies out.deep_view().contains(k) by {
                assert(keys.deep_view().to_set().contains(k));
                assert(keys.deep_view().contains(k));
                let w = choose|w: int|
                    0 <= w < keys.deep_view().len() && keys.deep_view()[w] == k;
                assert(keys.deep_view()[w] == k);
            }
        }
        out
    }
}

/// The contents of an empty store.
pub open spec fn empty_store_map() -> Map<Seq<char>, Seq<Seq<char>>> {
    Map::empty()
}

/// The dependency store.
pub struct Store {
    map: dashmap::DashMap<String, Vec<String>>,
}

impl View for Store {
    type V = Map<Seq<char>, Seq<Seq<char>>>;

    closed spec fn view(&self) -> Map<Seq<char>, Seq<Seq<char>>> {
        store_map(self.map)
    }
}

impl Store {
    /// An empty store.  Relies on dashmap::DashMap::new: a new map is empty.
    #[verifier::external_body]
    pub fn new() -> (r: Store)
        ensures
            r@ == empty_store_map(),
    {
        Store { map: dashmap::DashMap::new() }
    }

    /// Whether the store tracks `k`.
    pub fn contains_key(&self, k: &str) -> (r: bool)
        ensures
            r == self@.contains_key(k@),
    {
        dm_contains(&self.map, k)
    }

    /// The dependency list of `k`, where tracked.
    pub fn get(&self, k: &str) -> (r: Option<Vec<String>>)
        ensures
            match r {
                Some(v) => self@.contains_key(k@) && v.deep_view() == self@[k@],
                None => !self@.contains_key(k@),
            },
    {
        dm_get(&self.map, k)
    }

    /// Tracks `k` with the dependency list `v`.
    pub fn insert(&mut self, k: String, v: Vec<String>)
        ensures
            final(self)@ == old(self)@.insert(k@, v.deep_view()),
    {
        dm_insert(&mut self.map, k, v);
    }

    /// Stops tracking `k`.
    pub fn remove(&mut self, k: &str)
        ensures
            final(self)@ == old(self)@.remove(k@),
    {
        dm_remove(&mut self.map, k);
    }

    /// The tracked paths, each once, in no promised order.
    pub fn keys(&self) -> (r: Vec<String>)
        ensures
            r.deep_view().no_duplicates(),
            r.deep_view().to_set() == self@.dom(),
    {
        dm_keys(&self.map)
    }
}

/// Whether one record's dependency list is transitively closed: the list of
/// every tracked dependency of `k` lies within `k`'s own list.
pub open spec fn closed_at(m: Map<Seq<char>, Seq<Seq<char>>>, k: Seq<char>) -> bool {
    forall|j: int, t: int|
        #![trigger m[m[k][j]][t]]
        0 <= j < m[k].len() && m.dom().contains(m[k][j]) && 0 <= t < m[m[k][j]].len()
            ==> m[k].contains(m[m[k][j]][t])
}

/// Whether the whole store is transitively closed.
pub open spec fn transitively_closed(m: Map<Seq<char>, Seq<Seq<char>>>) -> bool {
    forall|k: Seq<char>| #[trigger] m.dom().contains(k) ==> closed_at(m, k)
}

/// Decides whether the store is transitively closed: whether every tracked
/// dependency of a tracked dependency of any record already stands in that
/// record.  Ingestion leaves the store this way whenever the walked imports
/// hold no cycle back into a file still being read.
pub fn is_transitively_closed(store: &Store) -> (r: bool)
    ensures
        r == transitively_closed(store@),
{
    let keys = store.keys();
    let mut i: usize = 0;
    while i < keys.len()
        invariant
            i <= keys@.len(),
            keys.deep_view().to_set() == store@.dom(),
            forall|w: int|
                0 <= w < i ==> closed_at(store@, #[trigger] keys.deep_view()[w]),
        decreases keys@.len() - i,
    {
        let deps = match store.get(keys[i].as_str()) {
            Some(d) => d,
            None => {
                proof {
                    assert(keys.deep_view()[i as int] == keys@[i as int]@);
                    assert(keys.deep_view().contains(keys.deep_view()[i as int]));
                    assert(false);
                }
                Vec::new()
            },
        };
        let ghost k = keys.deep_view()[i as int];
        proof {
            assert(keys.deep_view()[i as int] == keys@[i as int]@);
            assert(keys.deep_view().contains(k));
            assert(store@.dom().contains(k));
        }
        let mut j: usize = 0;
        while j < deps.len()
            invariant
                j <= deps@.len(),
                k == keys@[i as int]@,
                i < keys@.len(),
                store@.dom().contains(k),
                deps.deep_view() == store@[k],
                forall|x: int, t: int|
                    #![trigger store@[store@[k][x]][t]]
                    0 <= x < j && store@.dom().contains(store@[k][x]) && 0 <= t
                        < store@[store@[k][x]].len() ==> store@[k].contains(store@[store@[k][x]][t]),
            decreases deps@.len() - j,
        {
            match store.get(deps[j].as_str()) {
                Some(dd) => {
                    let mut t: usize = 0;
                    while t < dd.len()
                        invariant
                            t <= dd@.len(),
                            k == keys@[i as int]@,
                            i < keys@.len(),
                            j < deps@.len(),
                            store@.dom().contains(k),
                            deps.deep_view() == store@[k],
                            dd.deep_view() == store@[store@[k][j as int]],
                            store@.dom().contains(store@[k][j as int]),
                            forall|u: int|
                                0 <= u < t ==> store@[k].contains(
                                    #[trigger] store@[store@[k][j as int]][u],
                                ),
                        decreases dd@.len() - t,
                    {
                        if !paths_contain(&deps, dd[t].as_str()) {
                            proof {
                                assert(dd.deep_view()[t as int] == store@[store@[k][j as int]][
                                    t as int
                                ]);
                                assert(store@.dom().contains(k));
                                assert(!closed_at(store@, k));
                            }
                            return false;
                        }
                        t = t + 1;
                    }
                },
                None => {},
            }
            j = j + 1;
        }
        proof {
            assert forall|x: int, t: int|
                #![trigger store@[store@[k][x]][t]]
                0 <= x < store@[k].len() && store@.dom().contains(store@[k][x]) && 0 <= t
                    < store@[store@[k][x]].len() implies store@[k].contains(
                store@[store@[k][x]][t],
            ) by {}
            assert(closed_at(store@, k));
            assert forall|w: int| 0 <= w < i + 1 implies closed_at(
                store@,
                #[trigger] keys.deep_view()[w],
            ) by {}
        }
        i = i + 1;
    }
    proof {
        assert forall|k: Seq<char>| #[trigger] store@.dom().contains(k) implies closed_at(
            store@,
            k,
        ) by {
            assert(keys.deep_view().to_set().contains(k));
            assert(keys.deep_view().contains(k));
            let w = choose|w: int|
                0 <= w < keys.deep_view().len() && keys.deep_view()[w] == k;
            assert(closed_at(store@, keys.deep_view()[w]));
        }
    }
    true
}

/// Whether the vector of paths holds `p`.
pub fn paths_contain(v: &Vec<String>, p: &str) -> (r: bool)
    ensures
        r == v.deep_view().contains(p@),
{
    let mut i: usize = 0;
    while i < v.len()
        invariant
            i <= v@.len(),
            forall|j: int| 0 <= j < i ==> v.deep_view()[j] != p@,
        decreases v@.len() - i,
    {
        if str_eq(v[i].as_str(), p) {
            proof {
                assert(v.deep_view()[i as int] == p@);
            }
            return true;
        }
        i = i + 1;
    }
    false
}

} // verus!

use js_watcher::changes::{CacheMap, EntryChangeType, FileState};
use js_watcher::fsview::FsView;
use js_watcher::watcher::{SetupOptions, WatcherInner};

fn fs_watch(files: &[(&str, &str)]) -> FsView {
    let mut fs = FsView::new();
    for (p, c) in files {
        fs.push_file(p.to_string(), c.to_string());
    }
    fs
}

fn opts_for(entries: Vec<String>, globs: Option<Vec<String>>) -> SetupOptions {
    SetupOptions {
        project: "Project A".to_string(),
        project_root: "/p".to_string(),
        glob_entries: globs,
        entries: Some(entries),
        cache_dir: None,
        supported_paths: None,
        debug: None,
    }
}

#[test]
fn setup_test() {
    let fs = fs_watch(&[
        ("/p/relative_w_ext.js", "import './b.js';"),
        ("/p/b.js", ""),
        ("/p/y.js", "import './z.js';"),
        ("/p/z.js", ""),
    ]);
    let w = WatcherInner::setup(
        &fs,
        opts_for(vec!["/p/relative_w_ext.js".to_string(), "/p/y.js".to_string()], None),
    )
    .unwrap();
    assert_eq!(w.processed, true);
    assert_eq!(w.cache_dir, "/p/mw-cache");
}

#[test]
fn make_changes_three_js() {
    let fs = fs_watch(&[
        ("/p/one.js", "import './two.js';"),
        ("/p/two.js", "import './three.js';"),
        ("/p/three.js", ""),
    ]);
    let mut w =
        WatcherInner::setup(&fs, opts_for(Vec::new(), Some(vec!["**/*.js".to_string()]))).unwrap();
    let (changes, _) = w.make_changes(&fs, &CacheMap::new()).unwrap();
    assert!(changes.len() > 0);
}

#[test]
fn change_lifecycle() {
    let fs1 = fs_watch(&[("/p/e.js", "import './d.js';"), ("/p/d.js", "export const D = 1;")]);
    let mut w = WatcherInner::setup(&fs1, opts_for(vec!["/p/e.js".to_string()], None)).unwrap();

    // cold cache: the entry and its dependency both appear
    let (c1, cache1) = w.make_changes(&fs1, &CacheMap::new()).unwrap();
    assert_eq!(c1.len(), 2);
    assert_eq!(c1[0].change_type, EntryChangeType::Added);
    assert_eq!(c1[0].entry, "/p/e.js");
    assert!(c1[0].cause.is_none());
    assert!(c1[0].tree.is_none());
    assert_eq!(c1[1].change_type, EntryChangeType::DepAdded);
    assert_eq!(c1[1].entry, "/p/e.js");
    let cause1 = c1[1].cause.as_ref().unwrap();
    assert_eq!(cause1.file, "/p/d.js");
    assert_eq!(cause1.state, FileState::Created);
    assert_eq!(
        c1[1].tree.as_ref().unwrap(),
        &vec!["/p/d.js".to_string(), "/p/e.js".to_string()]
    );

    // no filesystem activity: nothing to report
    let (c2, cache2) = w.make_changes(&fs1, &cache1).unwrap();
    assert_eq!(c2.len(), 0);

    // the dependency's text changes
    let fs2 = fs_watch(&[("/p/e.js", "import './d.js';"), ("/p/d.js", "export const D = 2;")]);
    let (c3, cache3) = w.make_changes(&fs2, &cache2).unwrap();
    assert_eq!(c3.len(), 1);
    assert_eq!(c3[0].change_type, EntryChangeType::DepModified);
    assert_eq!(c3[0].entry, "/p/e.js");
    let cause3 = c3[0].cause.as_ref().unwrap();
    assert_eq!(cause3.file, "/p/d.js");
    assert_eq!(cause3.state, FileState::Modified);

    // the dependency vanishes
    let fs3 = fs_watch(&[("/p/e.js", "import './d.js';")]);
    let (c4, cache4) = w.make_changes(&fs3, &cache3).unwrap();
    assert_eq!(c4.len(), 1);
    assert_eq!(c4[0].change_type, EntryChangeType::DepDeleted);
    assert_eq!(c4[0].entry, "/p/e.js");
    let cause4 = c4[0].cause.as_ref().unwrap();
    assert_eq!(cause4.file, "/p/d.js");
    assert_eq!(cause4.state, FileState::Deleted);

    // a second round over the same absence stays quiet
    let (c4b, cache4b) = w.make_changes(&fs3, &cache4).unwrap();
    assert_eq!(c4b.len(), 0);

    // the dependency comes back
    let fs4 = fs_watch(&[("/p/e.js", "import './d.js';"), ("/p/d.js", "export const D = 2;")]);
    let (c5, _cache5) = w.make_changes(&fs4, &cache4b).unwrap();
    assert_eq!(c5.len(), 1);
    assert_eq!(c5[0].change_type, EntryChangeType::DepAdded);
    assert_eq!(c5[0].entry, "/p/e.js");
    let cause5 = c5[0].cause.as_ref().unwrap();
    assert_eq!(cause5.file, "/p/d.js");
    assert_eq!(cause5.state, FileState::Created);
}

#[test]
fn entry_deletion_reports_once() {
    let fs1 = fs_watch(&[("/p/e.js", ""), ("/p/f.js", "")]);
    let mut w = WatcherInner::setup(
        &fs1,
        opts_for(vec!["/p/e.js".to_string(), "/p/f.js".to_string()], None),
    )
    .unwrap();
    let (_c1, cache1) = w.make_changes(&fs1, &CacheMap::new()).unwrap();

    let fs2 = fs_watch(&[("/p/f.js", "")]);
    let (c2, cache2) = w.make_changes(&fs2, &cache1).unwrap();
    assert_eq!(c2.len(), 1);
    assert_eq!(c2[0].change_type, EntryChangeType::Deleted);
    assert_eq!(c2[0].entry, "/p/e.js");

    let (c3, _cache3) = w.make_changes(&fs2, &cache2).unwrap();
    assert_eq!(c3.len(), 0);
}

#[test]
fn modified_entry_is_reingested() {
    let fs1 = fs_watch(&[("/p/e.js", "import './d.js';"), ("/p/d.js", ""), ("/p/g.js", "")]);
    let mut w = WatcherInner::setup(&fs1, opts_for(vec!["/p/e.js".to_string()], None)).unwrap();
    let (_c1, cache1) = w.make_changes(&fs1, &CacheMap::new()).unwrap();

    // the entry's text changes and now imports another file
    let fs2 = fs_watch(&[("/p/e.js", "import './g.js';"), ("/p/d.js", ""), ("/p/g.js", "")]);
    let (c2, _cache2) = w.make_changes(&fs2, &cache1).unwrap();
    assert!(c2.iter().any(|c| c.change_type == EntryChangeType::Modified));
    let entries = w.get_entries();
    assert_eq!(entries.len(), 1);
    assert_eq!(entries[0].deps, vec!["/p/g.js".to_string()]);
}

#[test]
fn new_glob_matches_join_later_rounds() {
    let fs1 = fs_watch(&[("/p/a.js", "")]);
    let mut w =
        WatcherInner::setup(&fs1, opts_for(Vec::new(), Some(vec!["*.js".to_string()]))).unwrap();
    assert_eq!(w.get_entries().len(), 1);

    let fs2 = fs_watch(&[("/p/a.js", ""), ("/p/b.js", "")]);
    let (c2, _) = w.make_changes(&fs2, &CacheMap::new()).unwrap();
    assert_eq!(w.get_entries().len(), 2);
    assert!(c2.iter().any(|c| c.entry == "/p/b.js"));
}

#[test]
fn remove_dep_drops_the_record() {
    let fs = fs_watch(&[("/p/x.js", "import './y.js';"), ("/p/y.js", "")]);
    let mut w = WatcherInner::setup(&fs, opts_for(vec!["/p/x.js".to_string()], None)).unwrap();
    w.remove_dep("/p/y.js");
    assert!(w.store.get("/p/y.js").is_none());
    assert_eq!(w.store.get("/p/x.js").unwrap(), Vec::<String>::new());
}

#[test]
fn dirs_to_watch_hold_the_root() {
    let fs = fs_watch(&[("/p/sub/x.js", "import './y.js';"), ("/p/sub/y.js", "")]);
    let w = WatcherInner::setup(&fs, opts_for(vec!["/p/sub/x.js".to_string()], None)).unwrap();
    let dirs = w.get_dirs_to_watch();
    assert!(dirs.contains(&"/p".to_string()));
    assert!(dirs.contains(&"/p/sub".to_string()));
}

#[test]
fn file_state_classification() {
    let fs = fs_watch(&[("/p/a.js", "text")]);
    let mut cache = CacheMap::new();
    // unknown and present: created
    let (ck, st) = js_watcher::changes::get_file_state(&fs, "/p/a.js", &cache);
    assert_eq!(st, FileState::Created);
    assert!(ck >= 0);
    // recorded and unchanged
    cache.set("/p/a.js".to_string(), ck);
    let (_, st2) = js_watcher::changes::get_file_state(&fs, "/p/a.js", &cache);
    assert_eq!(st2, FileState::NotModified);
    // recorded but absent: deleted, then recorded absent: quiet
    let fs2 = fs_watch(&[]);
    let (ck3, st3) = js_watcher::changes::get_file_state(&fs2, "/p/a.js", &cache);
    assert_eq!(st3, FileState::Deleted);
    assert_eq!(ck3, -1);
    cache.set("/p/a.js".to_string(), -1);
    let (_, st4) = js_watcher::changes::get_file_state(&fs2, "/p/a.js", &cache);
    assert_eq!(st4, FileState::NotModified);
    // recorded absent but present again: created
    let (_, st5) = js_watcher::changes::get_file_state(&fs, "/p/a.js", &cache);
    assert_eq!(st5, FileState::Created);
}

#[test]
fn usage_lists_the_entries_a_file_serves() {
    let fs = fs_watch(&[("/p/x.js", "import './y.js';"), ("/p/y.js", "")]);
    let w = WatcherInner::setup(&fs, opts_for(vec!["/p/x.js".to_string()], None)).unwrap();
    let entries = w.get_entries();
    let item = &entries[0];
    let y = js_watcher::store::FileItem { path: "/p/y.js".to_string(), deps: Vec::new() };
    let usage = y.get_usage(&w.store);
    assert!(usage.contains(&"/p/x.js".to_string()));
    assert!(usage.contains(&"/p/y.js".to_string()));
    assert_eq!(item.path, "/p/x.js");
}

#[test]
fn entries_from_item_filter_by_usage() {
    let fs = fs_watch(&[
        ("/p/x.js", "import './y.js';"),
        ("/p/y.js", ""),
        ("/p/w.js", ""),
    ]);
    let w = WatcherInner::setup(
        &fs,
        opts_for(vec!["/p/x.js".to_string(), "/p/w.js".to_string()], None),
    )
    .unwrap();
    let y = js_watcher::store::FileItem { path: "/p/y.js".to_string(), deps: Vec::new() };
    let serving = w.get_entries_from_item(&y);
    assert_eq!(serving.len(), 1);
    assert_eq!(serving[0].path, "/p/x.js");
}

#[test]
fn glob_star_stays_within_one_directory() {
    // `*` must not cross a separator, as the pattern crate's own disk walk
    // has it
    let fs = fs_watch(&[("/p/a.js", ""), ("/p/sub/b.js", "")]);
    let w =
        WatcherInner::setup(&fs, opts_for(Vec::new(), Some(vec!["*.js".to_string()]))).unwrap();
    let entries = w.get_entries();
    assert_eq!(entries.len(), 1);
    assert_eq!(entries[0].path, "/p/a.js");
}

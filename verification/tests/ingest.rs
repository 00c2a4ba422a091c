use js_watcher::entry::{
    conditions_for, find_node_modules_dir, make_entries, make_file_item, resolve_node_module,
    WatchError,
};
use js_watcher::fsview::{resolve_index, resolve_with_extension, FsView};
use js_watcher::parser::ImportKind;
use js_watcher::store::{is_transitively_closed, Store};

fn fs_of(files: &[(&str, &str)]) -> FsView {
    let mut fs = FsView::new();
    for (p, c) in files {
        fs.push_file(p.to_string(), c.to_string());
    }
    fs
}

fn deps_of(fs: &FsView, path: &str) -> Vec<String> {
    let mut store = Store::new();
    let r = make_file_item(fs, path, "/p", &mut store, &None).unwrap().unwrap();
    r
}

#[test]
fn direct_dependency() {
    let fs = fs_of(&[("/p/a.js", "import './b.js';"), ("/p/b.js", "")]);
    let mut store = Store::new();
    let deps = make_file_item(&fs, "/p/a.js", "/p", &mut store, &None).unwrap().unwrap();
    assert_eq!(deps, vec!["/p/b.js".to_string()]);
    assert_eq!(store.get("/p/b.js").unwrap(), Vec::<String>::new());
}

#[test]
fn extensionless_and_index_resolution() {
    let fs = fs_of(&[("/p/a.js", "import './c'"), ("/p/c/index.js", "export {}")]);
    let deps = deps_of(&fs, "/p/a.js");
    assert_eq!(deps, vec!["/p/c/index.js".to_string()]);

    let fs2 = fs_of(&[("/p/a.js", "import './b'"), ("/p/b.js", "")]);
    let deps2 = deps_of(&fs2, "/p/a.js");
    assert_eq!(deps2, vec!["/p/b.js".to_string()]);
}

#[test]
fn transitive_closure_is_recorded() {
    let fs = fs_of(&[
        ("/p/x.js", "import './y.js';"),
        ("/p/y.js", "import './z.js';"),
        ("/p/z.js", ""),
    ]);
    let deps = deps_of(&fs, "/p/x.js");
    assert_eq!(deps.len(), 2);
    assert!(deps.contains(&"/p/y.js".to_string()));
    assert!(deps.contains(&"/p/z.js".to_string()));
}

#[test]
fn cycles_terminate() {
    let fs = fs_of(&[("/p/a.js", "import './b.js';"), ("/p/b.js", "import './a.js';")]);
    let mut store = Store::new();
    make_file_item(&fs, "/p/a.js", "/p", &mut store, &None).unwrap().unwrap();
    let a_deps = store.get("/p/a.js").unwrap();
    let b_deps = store.get("/p/b.js").unwrap();
    assert!(a_deps.contains(&"/p/b.js".to_string()));
    assert!(b_deps.contains(&"/p/a.js".to_string()));
}

#[test]
fn ingest_is_idempotent() {
    let fs = fs_of(&[("/p/a.js", "import './b.js';"), ("/p/b.js", "")]);
    let mut store = Store::new();
    let first = make_file_item(&fs, "/p/a.js", "/p", &mut store, &None).unwrap().unwrap();
    let second = make_file_item(&fs, "/p/a.js", "/p", &mut store, &None).unwrap().unwrap();
    assert_eq!(first, second);
}

#[test]
fn project_rooted_specifier() {
    let fs = fs_of(&[("/p/sub/a.js", "import '~/lib/t.js';"), ("/p/lib/t.js", "")]);
    let mut store = Store::new();
    let deps = make_file_item(&fs, "/p/sub/a.js", "/p", &mut store, &None).unwrap().unwrap();
    assert_eq!(deps, vec!["/p/lib/t.js".to_string()]);
}

#[test]
fn completion_searches() {
    let fs = fs_of(&[("/p/c/index.ts", ""), ("/p/b.jsx", "")]);
    assert_eq!(resolve_index(&fs, "/p/c"), Some("/p/c/index.ts".to_string()));
    assert_eq!(resolve_index(&fs, "/p/b"), None);
    assert_eq!(resolve_with_extension(&fs, "/p/b"), Some("/p/b.jsx".to_string()));
    assert_eq!(resolve_with_extension(&fs, "/p/zz"), None);
}

#[test]
fn test_find_node_modules_dir() {
    let fs = fs_of(&[("/r/node_modules/pkg/package.json", "{}"), ("/r/src/a.js", "")]);
    assert_eq!(find_node_modules_dir(&fs, "/r"), Some("/r/node_modules".to_string()));
    assert_eq!(find_node_modules_dir(&fs, "/r/src"), Some("/r/node_modules".to_string()));
    assert_eq!(find_node_modules_dir(&fs, "/q"), None);
}

#[test]
fn test_resolve_node_modules() {
    let nm = "/r/node_modules";
    let fs = fs_of(&[
        ("/r/node_modules/exports_str/package.json", r#"{"exports": "./main.js"}"#),
        (
            "/r/node_modules/exports_obj/package.json",
            r#"{"exports": {".": "./main.js", "./a": "./a.js"}}"#,
        ),
        ("/r/node_modules/main/package.json", r#"{"main": "./main.js"}"#),
        (
            "/r/node_modules/exports_cond/package.json",
            r#"{"exports": {".": {"import": "./import-main.js", "require": "./require-main.js"}}}"#,
        ),
        (
            "/r/node_modules/exports_cond_default/package.json",
            r#"{"exports": {".": {"default": "./main.js"}}}"#,
        ),
        (
            "/r/node_modules/exports_array/package.json",
            r#"{"exports": ["./main1.js", "./main2.js"]}"#,
        ),
    ]);
    {
        let r = resolve_node_module(&fs, "exports_str", ImportKind::Esm, nm).unwrap().unwrap();
        assert_eq!(r, "/r/node_modules/exports_str/main.js");
    }
    {
        let r = resolve_node_module(&fs, "exports_obj", ImportKind::Esm, nm).unwrap().unwrap();
        assert_eq!(r, "/r/node_modules/exports_obj/main.js");
    }
    {
        let r = resolve_node_module(&fs, "exports_obj/a", ImportKind::Esm, nm).unwrap().unwrap();
        assert_eq!(r, "/r/node_modules/exports_obj/a.js");
    }
    {
        let r = resolve_node_module(&fs, "main", ImportKind::Esm, nm).unwrap().unwrap();
        assert_eq!(r, "/r/node_modules/main/main.js");
    }
    {
        let r = resolve_node_module(&fs, "exports_cond", ImportKind::Esm, nm).unwrap().unwrap();
        assert_eq!(r, "/r/node_modules/exports_cond/import-main.js");
    }
    {
        let r = resolve_node_module(&fs, "exports_cond", ImportKind::Require, nm).unwrap().unwrap();
        assert_eq!(r, "/r/node_modules/exports_cond/require-main.js");
    }
    {
        let r =
            resolve_node_module(&fs, "exports_cond_default", ImportKind::Esm, nm).unwrap().unwrap();
        assert_eq!(r, "/r/node_modules/exports_cond_default/main.js");
    }
    {
        let r = resolve_node_module(&fs, "exports_array", ImportKind::Esm, nm).unwrap().unwrap();
        assert_eq!(r, "/r/node_modules/exports_array/main1.js");
    }
    {
        let r = resolve_node_module(&fs, "missing_pkg", ImportKind::Esm, nm).unwrap();
        assert!(r.is_none());
    }
}

#[test]
fn bare_import_through_node_modules() {
    let fs = fs_of(&[
        ("/r/a.js", "import 'pkg';"),
        ("/r/node_modules/pkg/package.json", r#"{"exports": "./out/index.js"}"#),
        ("/r/node_modules/pkg/out/index.js", ""),
    ]);
    let mut store = Store::new();
    let deps = make_file_item(&fs, "/r/a.js", "/r", &mut store, &None).unwrap().unwrap();
    assert_eq!(deps, vec!["/r/node_modules/pkg/out/index.js".to_string()]);
}

#[test]
fn make_entries_test_no_glob() {
    let fs = fs_of(&[
        ("/p/relative_w_ext.js", "import './b.js';"),
        ("/p/b.js", ""),
        ("/p/y.js", "import './z.js';"),
        ("/p/z.js", ""),
    ]);
    let (_, entries) = make_entries(
        &fs,
        vec!["/p/relative_w_ext.js".to_string(), "/p/y.js".to_string()],
        None,
        "/p",
        &None,
    )
    .unwrap();
    assert_eq!(entries.len(), 2usize);
}

#[test]
fn make_entries_test_glob() {
    let fs = fs_of(&[
        ("/p/relative_w_ext.js", "import './b.js';"),
        ("/p/relative_wo_ext.js", "import './b';"),
        ("/p/b.js", ""),
    ]);
    let globs = vec!["relative_*.js".to_string()];
    let (store, entries) = make_entries(&fs, Vec::new(), Some(&globs), "/p", &None).unwrap();
    assert_eq!(entries.len(), 2usize);
    assert!(store.contains_key("/p/b.js"));
}

#[test]
fn error_cases() {
    // an entry without an extension
    let fs = fs_of(&[("/p/plain", "")]);
    let mut store = Store::new();
    let r = make_file_item(&fs, "/p/plain", "/p", &mut store, &None);
    assert!(matches!(r, Err(WatchError::NoExtension(_))));

    // an entry the snapshot does not hold
    let fs2 = fs_of(&[]);
    let mut store2 = Store::new();
    let r2 = make_file_item(&fs2, "/p/a.js", "/p", &mut store2, &None);
    assert!(matches!(r2, Err(WatchError::MissingFile(_))));

    // an import no file completes
    let fs3 = fs_of(&[("/p/a.js", "import './nope';")]);
    let mut store3 = Store::new();
    let r3 = make_file_item(&fs3, "/p/a.js", "/p", &mut store3, &None);
    assert!(matches!(r3, Err(WatchError::CompletionFailed(_))));

    // a bare import without any node_modules above the project
    let fs4 = fs_of(&[("/p/a.js", "import 'pkg';")]);
    let mut store4 = Store::new();
    let r4 = make_file_item(&fs4, "/p/a.js", "/p", &mut store4, &None);
    assert!(matches!(r4, Err(WatchError::NoNodeModules)));

    // a manifest that is not valid JSON
    let fs5 = fs_of(&[
        ("/p/a.js", "import 'pkg';"),
        ("/p/node_modules/pkg/package.json", "nonsense"),
    ]);
    let mut store5 = Store::new();
    let r5 = make_file_item(&fs5, "/p/a.js", "/p", &mut store5, &None);
    assert!(matches!(r5, Err(WatchError::BadPackageJson(_))));

    // an exports entry of a shape resolution refuses
    let fs6 = fs_of(&[
        ("/p/a.js", "import 'pkg';"),
        ("/p/node_modules/pkg/package.json", r#"{"exports": {".": {}}}"#),
    ]);
    let mut store6 = Store::new();
    let r6 = make_file_item(&fs6, "/p/a.js", "/p", &mut store6, &None);
    assert!(matches!(r6, Err(WatchError::BadExportValue(_))));

    // a glob pattern that does not compile
    let fs7 = fs_of(&[("/p/a.js", "")]);
    let globs = vec!["a[".to_string()];
    let r7 = make_entries(&fs7, Vec::new(), Some(&globs), "/p", &None);
    assert!(matches!(r7, Err(WatchError::BadPattern(_))));
}

#[test]
fn external_import_leaves_placeholder() {
    // a bare import that no package answers: the file keeps an empty record
    let fs = fs_of(&[
        ("/p/a.js", "import 'not_installed';"),
        ("/p/node_modules/other/package.json", r#"{"main": "./m.js"}"#),
    ]);
    let mut store = Store::new();
    let r = make_file_item(&fs, "/p/a.js", "/p", &mut store, &None).unwrap();
    assert!(r.is_none());
    assert_eq!(store.get("/p/a.js").unwrap(), Vec::<String>::new());
}

#[test]
fn default_conditions_by_extension() {
    let c = conditions_for(&None, "js");
    assert!(c.esm && c.require && c.lazy_esm && !c.css);
    let c2 = conditions_for(&None, "css");
    assert!(!c2.esm && !c2.require && !c2.lazy_esm && c2.css);
    let c3 = conditions_for(&None, "mdx");
    assert!(c3.esm && !c3.require && !c3.lazy_esm && c3.css);
    let c4 = conditions_for(&None, "png");
    assert!(!c4.esm && !c4.require && !c4.lazy_esm && !c4.css);
}

#[test]
fn css_imports_are_tracked() {
    let fs = fs_of(&[
        ("/p/main.css", "@import 'one.css', url('two.css');"),
        ("/p/one.css", ""),
        ("/p/two.css", ""),
    ]);
    let deps = deps_of(&fs, "/p/main.css");
    assert_eq!(deps.len(), 2);
    assert!(deps.contains(&"/p/one.css".to_string()));
    assert!(deps.contains(&"/p/two.css".to_string()));
}

#[test]
fn closure_invariant_after_ingest() {
    let fs = fs_of(&[
        ("/p/x.js", "import './y.js';"),
        ("/p/y.js", "import './z.js';"),
        ("/p/z.js", ""),
    ]);
    let mut store = Store::new();
    make_file_item(&fs, "/p/x.js", "/p", &mut store, &None).unwrap().unwrap();
    assert!(is_transitively_closed(&store));
}

#[test]
fn closure_invariant_fails_on_cycles() {
    // the file read first folds an empty placeholder of itself in, so its
    // partner's record stays short of the closure
    let fs = fs_of(&[("/p/a.js", "import './b.js';"), ("/p/b.js", "import './a.js';")]);
    let mut store = Store::new();
    make_file_item(&fs, "/p/a.js", "/p", &mut store, &None).unwrap().unwrap();
    assert!(!is_transitively_closed(&store));
}

#[test]
fn every_recorded_dep_is_tracked() {
    let fs = fs_of(&[
        ("/p/x.js", "import './y.js';"),
        ("/p/y.js", "import './z.js';"),
        ("/p/z.js", ""),
    ]);
    let mut store = Store::new();
    make_file_item(&fs, "/p/x.js", "/p", &mut store, &None).unwrap().unwrap();
    for key in store.keys() {
        for dep in store.get(&key).unwrap() {
            assert!(store.contains_key(&dep));
        }
    }
}

//! Entry ingestion: which statement families a file runs, and the errors
//! resolution can surface.
//!
//! Every fatal condition of resolution — an unreadable source, an import
//! that cannot be completed to a file, a missing `node_modules`, a manifest
//! that does not parse — is an error value here; the driver outside the
//! library decides to stop on them.

use vstd::prelude::*;

use crate::fsview::ext_spec;
use crate::parser::{ImportKind, ParseConditions};
use crate::strutil::{chars_of, str_eq};
use crate::store::paths_contain;

verus! {

/// Why ingestion stopped.
#[derive(Debug)]
pub enum WatchError {
    /// A tracked or imported source file could not be read.
    MissingFile(String),
    /// A file path carries no extension to pick statement families by.
    NoExtension(String),
    /// An import pointed at a directory without an index file, or at a stem
    /// no file matches.
    CompletionFailed(String),
    /// A path an import resolution needed a holding directory for had none.
    InvalidPath(String),
    /// No `node_modules` directory above the project root.
    NoNodeModules,
    /// A glob pattern that does not compile.
    BadPattern(String),
    /// A package manifest that is not valid JSON.
    BadPackageJson(String),
    /// An exports entry whose shape resolution cannot read.
    BadExportValue(String),
    /// A changed entry whose re-ingestion recorded no dependency list.
    EntryUntracked(String),
}

/// Per-family extension sets; an unset family falls back to its default.
pub struct SupportedPaths {
    pub esm: Option<Vec<String>>,
    pub dyn_esm: Option<Vec<String>>,
    pub cjs: Option<Vec<String>>,
    pub css: Option<Vec<String>>,
}

/// Options of store building.
pub struct MakeEntriesOptions {
    pub supported_paths: Option<SupportedPaths>,
}

/// The default script extensions.
pub open spec fn is_js_ext(e: Seq<char>) -> bool {
    ||| e == seq!['c', 'j', 's']
    ||| e == seq!['m', 'j', 's']
    ||| e == seq!['j', 's']
    ||| e == seq!['t', 's']
    ||| e == seq!['t', 's', 'x']
    ||| e == seq!['j', 's', 'x']
    ||| e == seq!['c', 't', 's']
    ||| e == seq!['m', 't', 's']
}

/// The default style extensions.
pub open spec fn is_style_ext(e: Seq<char>) -> bool {
    ||| e == seq!['c', 's', 's']
    ||| e == seq!['s', 'c', 's', 's']
    ||| e == seq!['s', 'a', 's', 's']
}

pub open spec fn is_mdx_ext(e: Seq<char>) -> bool {
    e == seq!['m', 'd', 'x']
}

/// The user's extension set for one family, where one was given.
pub open spec fn user_exts(opts: Option<MakeEntriesOptions>, pick: int) -> Option<Seq<Seq<char>>> {
    match opts {
        Some(o) => match o.supported_paths {
            Some(sp) => {
                let field = if pick == 0 {
                    sp.esm
                } else if pick == 1 {
                    sp.dyn_esm
                } else if pick == 2 {
                    sp.cjs
                } else {
                    sp.css
                };
                match field {
                    Some(v) => Some(v.deep_view()),
                    None => None,
                }
            },
            None => None,
        },
        None => None,
    }
}

/// Whether the module-import family runs for extension `e`.
pub open spec fn esm_cond(opts: Option<MakeEntriesOptions>, e: Seq<char>) -> bool {
    match user_exts(opts, 0) {
        Some(v) => v.contains(e),
        None => is_js_ext(e) || is_mdx_ext(e),
    }
}

/// Whether the dynamic-import family runs for extension `e`.
pub open spec fn lazy_cond(opts: Option<MakeEntriesOptions>, e: Seq<char>) -> bool {
    match user_exts(opts, 1) {
        Some(v) => v.contains(e),
        None => is_js_ext(e),
    }
}

/// Whether the `require` family runs for extension `e`.
pub open spec fn require_cond(opts: Option<MakeEntriesOptions>, e: Seq<char>) -> bool {
    match user_exts(opts, 2) {
        Some(v) => v.contains(e),
        None => is_js_ext(e),
    }
}

/// Whether the style-sheet family runs for extension `e`.
pub open spec fn css_cond(opts: Option<MakeEntriesOptions>, e: Seq<char>) -> bool {
    match user_exts(opts, 3) {
        Some(v) => v.contains(e),
        None => is_style_ext(e) || is_mdx_ext(e),
    }
}

/// The parse conditions of a file with extension `e`.
pub open spec fn conditions_spec(opts: Option<MakeEntriesOptions>, e: Seq<char>) -> ParseConditions {
    ParseConditions {
        esm: esm_cond(opts, e),
        require: require_cond(opts, e),
        lazy_esm: lazy_cond(opts, e),
        css: css_cond(opts, e),
    }
}

/// Whether any family at all runs for extension `e`.
pub open spec fn any_cond(opts: Option<MakeEntriesOptions>, e: Seq<char>) -> bool {
    esm_cond(opts, e) || require_cond(opts, e) || lazy_cond(opts, e) || css_cond(opts, e)
}

/// The per-family extension sets an options value amounts to.
pub open spec fn opts_model(o: Option<MakeEntriesOptions>) -> (
    Option<Seq<Seq<char>>>,
    Option<Seq<Seq<char>>>,
    Option<Seq<Seq<char>>>,
    Option<Seq<Seq<char>>>,
) {
    (user_exts(o, 0), user_exts(o, 1), user_exts(o, 2), user_exts(o, 3))
}

/// Whether the file at `p` counts as a module source: it has an extension
/// for which some statement family runs.
pub open spec fn is_module_path(opts: Option<MakeEntriesOptions>, p: Seq<char>) -> bool {
    match ext_spec(p) {
        Some(e) => any_cond(opts, e),
        None => false,
    }
}

/// Whether `e` is one of the default script extensions.
fn is_js_ext_exec(e: &str) -> (r: bool)
    ensures
        r == is_js_ext(e@),
{
    proof {
        reveal_strlit("cjs");
        reveal_strlit("mjs");
        reveal_strlit("js");
        reveal_strlit("ts");
        reveal_strlit("tsx");
        reveal_strlit("jsx");
        reveal_strlit("cts");
        reveal_strlit("mts");
        assert("cjs"@ =~= seq!['c', 'j', 's']);
        assert("mjs"@ =~= seq!['m', 'j', 's']);
        assert("js"@ =~= seq!['j', 's']);
        assert("ts"@ =~= seq!['t', 's']);
        assert("tsx"@ =~= seq!['t', 's', 'x']);
        assert("jsx"@ =~= seq!['j', 's', 'x']);
        assert("cts"@ =~= seq!['c', 't', 's']);
        assert("mts"@ =~= seq!['m', 't', 's']);
    }
    str_eq(e, "cjs") || str_eq(e, "mjs") || str_eq(e, "js") || str_eq(e, "ts") || str_eq(e, "tsx")
        || str_eq(e, "jsx") || str_eq(e, "cts") || str_eq(e, "mts")
}

/// Whether `e` is one of the default style extensions.
fn is_style_ext_exec(e: &str) -> (r: bool)
    ensures
        r == is_style_ext(e@),
{
    proof {
        reveal_strlit("css");
        reveal_strlit("scss");
        reveal_strlit("sass");
        assert("css"@ =~= seq!['c', 's', 's']);
        assert("scss"@ =~= seq!['s', 'c', 's', 's']);
        assert("sass"@ =~= seq!['s', 'a', 's', 's']);
    }
    str_eq(e, "css") || str_eq(e, "scss") || str_eq(e, "sass")
}

/// Whether `e` is the mdx extension.
fn is_mdx_ext_exec(e: &str) -> (r: bool)
    ensures
        r == is_mdx_ext(e@),
{
    proof {
        reveal_strlit("mdx");
        assert("mdx"@ =~= seq!['m', 'd', 'x']);
    }
    str_eq(e, "mdx")
}

/// The parse conditions of a file with extension `e`, defaults filled in.
pub fn conditions_for(opts: &Option<MakeEntriesOptions>, e: &str) -> (r: ParseConditions)
    ensures
        r == conditions_spec(*opts, e@),
{
    let sp: &Option<SupportedPaths> = match opts {
        Some(o) => &o.supported_paths,
        None => &None,
    };
    let esm = match sp {
        Some(s) => match &s.esm {
            Some(v) => paths_contain(v, e),
            None => is_js_ext_exec(e) || is_mdx_ext_exec(e),
        },
        None => is_js_ext_exec(e) || is_mdx_ext_exec(e),
    };
    let lazy_esm = match sp {
        Some(s) => match &s.dyn_esm {
            Some(v) => paths_contain(v, e),
            None => is_js_ext_exec(e),
        },
        None => is_js_ext_exec(e),
    };
    let require = match sp {
        Some(s) => match &s.cjs {
            Some(v) => paths_contain(v, e),
            None => is_js_ext_exec(e),
        },
        None => is_js_ext_exec(e),
    };
    let css = match sp {
        Some(s) => match &s.css {
            Some(v) => paths_contain(v, e),
            None => is_style_ext_exec(e) || is_mdx_ext_exec(e),
        },
        None => is_style_ext_exec(e) || is_mdx_ext_exec(e),
    };
    ParseConditions { esm, require, lazy_esm, css }
}

/// Whether a glob pattern compiles.
pub uninterp spec fn glob_pat_ok(pat: Seq<char>) -> bool;

/// Whether a compiled glob pattern matches a path.
pub uninterp spec fn glob_matches(pat: Seq<char>, path: Seq<char>) -> bool;

/// Relies on glob::Pattern::new and glob::Pattern::matches_with: whether a
/// pattern compiles, and whether it matches a path, depend on the two texts
/// alone.  Separators must be matched literally, as the crate's own
/// directory walk has it, so `*` never crosses a `/`.
#[verifier::external_body]
pub(crate) fn glob_match(pattern: &str, path: &str) -> (r: Option<bool>)
    ensures
        r is Some <==> glob_pat_ok(pattern@),
        r is Some ==> r->Some_0 == glob_matches(pattern@, path@),
{
    let options = glob::MatchOptions {
        case_sensitive: true,
        require_literal_separator: true,
        require_literal_leading_dot: false,
    };
    glob::Pattern::new(pattern).ok().map(|p| p.matches_with(path, options))
}

pub open spec fn kw_node_modules() -> Seq<char> {
    seq!['n', 'o', 'd', 'e', '_', 'm', 'o', 'd', 'u', 'l', 'e', 's']
}

pub open spec fn kw_exports() -> Seq<char> {
    seq!['e', 'x', 'p', 'o', 'r', 't', 's']
}

pub open spec fn kw_main() -> Seq<char> {
    seq!['m', 'a', 'i', 'n']
}

pub open spec fn kw_default() -> Seq<char> {
    seq!['d', 'e', 'f', 'a', 'u', 'l', 't']
}

pub open spec fn kw_package_json() -> Seq<char> {
    seq!['p', 'a', 'c', 'k', 'a', 'g', 'e', '.', 'j', 's', 'o', 'n']
}

/// The `node_modules` entry a directory would hold.
pub open spec fn nm_candidate(d: Seq<char>) -> Seq<char> {
    crate::fsview::dir_sep(d) + kw_node_modules()
}

/// The nearest `node_modules` entry at or above `dir`: the walk checks each
/// directory in turn and climbs to its parent while one exists.
pub open spec fn node_modules_from(fs: crate::fsview::FsView, dir: Seq<char>) -> Option<Seq<char>>
    decreases dir.len(),
{
    if crate::fsview::has_entry_spec(fs, nm_candidate(dir)) {
        Some(nm_candidate(dir))
    } else {
        match crate::fsview::parent_spec(dir) {
            Some(p) => {
                if p.len() < dir.len() {
                    node_modules_from(fs, p)
                } else {
                    None
                }
            },
            None => None,
        }
    }
}

/// Finds the nearest `node_modules` entry at or above `root`.
pub fn find_node_modules_dir(fs: &crate::fsview::FsView, root: &str) -> (r: Option<String>)
    ensures
        match r {
            Some(p) => node_modules_from(*fs, root@) == Some(p@),
            None => node_modules_from(*fs, root@) is None,
        },
{
    let mut cur = root.to_owned();
    loop
        invariant
            node_modules_from(*fs, root@) == node_modules_from(*fs, cur@),
        decreases cur@.len(),
    {
        let mut cand = crate::fsview::dir_sep_of(cur.as_str());
        cand.append("node_modules");
        proof {
            reveal_strlit("node_modules");
            assert("node_modules"@ =~= kw_node_modules());
            assert(cand@ == nm_candidate(cur@));
        }
        if crate::fsview::fs_has_entry(fs, cand.as_str()) {
            return Some(cand);
        }
        match crate::fsview::parent_dir(cur.as_str()) {
            Some(p) => {
                if p.as_str().unicode_len() < cur.as_str().unicode_len() {
                    cur = p;
                } else {
                    return None;
                }
            },
            None => {
                return None;
            },
        }
    }
}

/// The specifier with its first occurrence of `mp` replaced by a dot; the
/// specifier itself when `mp` does not occur in it.
pub open spec fn rel_key(module: Seq<char>, mp: Seq<char>) -> Seq<char> {
    let f = crate::parser::find_sub(module, 0, mp);
    if f < module.len() {
        module.take(f as int) + seq!['.'] + module.skip(f as int + mp.len() as int)
    } else {
        module
    }
}

/// Replaces the first occurrence of `mp` in `module` by a dot.
fn rel_key_of(module: &str, mp: &str) -> (r: String)
    ensures
        r@ == rel_key(module@, mp@),
{
    let mc = chars_of(module);
    let pc = chars_of(mp);
    let f = crate::parser::find_sub_at(&mc, 0, &pc);
    if f < mc.len() {
        let mut r = module.substring_char(0, f).to_owned();
        r.append(".");
        let tail_start = if f + mp.unicode_len() > mc.len() {
            mc.len()
        } else {
            f + mp.unicode_len()
        };
        proof {
            reveal_strlit(".");
            assert("."@ =~= seq!['.']);
            assert(f + mp@.len() <= mc@.len());
        }
        r.append(module.substring_char(tail_start, mc.len()));
        r
    } else {
        module.to_owned()
    }
}

/// The outcome of resolving a specifier against package manifests.
pub enum ResolveOutcome {
    Found(Seq<char>),
    External,
    BadJson(Seq<char>),
    BadExport,
}

/// The outcome of reading one exports value.
pub enum ExportScan {
    Found(Seq<char>),
    Missing,
    Bad,
}

/// Whether an exports condition key applies to this import kind.
pub open spec fn cond_key_matches(k: Seq<char>, kind: ImportKind) -> bool {
    ||| (k == crate::parser::kw_import() && kind is Esm)
    ||| (k == crate::parser::kw_require() && kind is Require)
    ||| k == kw_default()
}

/// The first field of a conditional exports map whose key applies.
pub open spec fn cond_pick(
    fields: Seq<(Seq<char>, crate::json::JsonModel)>,
    kind: ImportKind,
    i: nat,
) -> Option<crate::json::JsonModel>
    decreases fields.len() - i,
{
    if i >= fields.len() {
        None
    } else if cond_key_matches(fields[i as int].0, kind) {
        Some(fields[i as int].1)
    } else {
        cond_pick(fields, kind, i + 1)
    }
}

/// What one exports value resolves to: a string is the target; an array is
/// scanned for its first usable value; a conditional map yields the value of
/// the first applying condition, or leniently its first value, and either
/// must be a string; anything else is unusable or absent.
pub open spec fn handle_export_spec(v: crate::json::JsonModel, kind: ImportKind) -> ExportScan
    decreases v,
{
    match v {
        crate::json::JsonModel::Str(s) => ExportScan::Found(s),
        crate::json::JsonModel::Arr(items) => scan_export_list(items, kind),
        crate::json::JsonModel::Obj(fields) => {
            if fields.len() == 0 {
                ExportScan::Bad
            } else {
                match cond_pick(fields, kind, 0) {
                    Some(val) => match val {
                        crate::json::JsonModel::Str(s) => ExportScan::Found(s),
                        _ => ExportScan::Bad,
                    },
                    None => match fields[0].1 {
                        crate::json::JsonModel::Str(s) => ExportScan::Found(s),
                        _ => ExportScan::Bad,
                    },
                }
            }
        },
        crate::json::JsonModel::Other => ExportScan::Missing,
    }
}

/// The first usable value of an exports array.
pub open spec fn scan_export_list(items: Seq<crate::json::JsonModel>, kind: ImportKind) -> ExportScan
    decreases items,
{
    if items.len() == 0 {
        ExportScan::Missing
    } else {
        match handle_export_spec(items[0], kind) {
            ExportScan::Missing => scan_export_list(items.skip(1), kind),
            other => other,
        }
    }
}

/// The first field of an object with the given key.
pub open spec fn obj_lookup(
    fields: Seq<(Seq<char>, crate::json::JsonModel)>,
    key: Seq<char>,
    i: nat,
) -> Option<crate::json::JsonModel>
    decreases fields.len() - i,
{
    if i >= fields.len() {
        None
    } else if fields[i as int].0 == key {
        Some(fields[i as int].1)
    } else {
        obj_lookup(fields, key, i + 1)
    }
}

/// The field of a document under the given key; nothing when the document is
/// no object or lacks the key.
pub open spec fn obj_get_spec(doc: crate::json::JsonModel, key: Seq<char>) -> Option<
    crate::json::JsonModel,
> {
    match doc {
        crate::json::JsonModel::Obj(fields) => obj_lookup(fields, key, 0),
        _ => None,
    }
}

/// The walk over the specifier's component prefixes: for prefix number `t`
/// the manifest of `node_modules/<prefix>` decides, through its `exports`
/// field, through `main` on the last prefix, or by sending the walk to the
/// next prefix; a prefix without a manifest makes the import external.
pub open spec fn resolve_nm_steps(
    fs: crate::fsview::FsView,
    module: Seq<char>,
    kind: ImportKind,
    nm: Seq<char>,
    segs: Seq<Seq<char>>,
    t: nat,
) -> ResolveOutcome
    decreases segs.len() - t,
{
    if t < 1 || t > segs.len() {
        ResolveOutcome::External
    } else {
        let mp = crate::path_clean::join_segs(segs.take(t as int));
        let pkg_dir = crate::fsview::dir_sep(nm) + mp;
        let pkg_path = pkg_dir + seq!['/'] + kw_package_json();
        if !crate::fsview::fs_has(fs, pkg_path) {
            ResolveOutcome::External
        } else {
            match crate::json::json_of_text(crate::fsview::fs_content(fs, pkg_path)) {
                None => ResolveOutcome::BadJson(pkg_path),
                Some(doc) => {
                    let after = if t == segs.len() {
                        match obj_get_spec(doc, kw_main()) {
                            Some(m) => match m {
                                crate::json::JsonModel::Str(target) => ResolveOutcome::Found(
                                    crate::fsview::join_spec(
                                        crate::fsview::dir_sep(nm) + segs[0],
                                        target,
                                    ),
                                ),
                                _ => ResolveOutcome::External,
                            },
                            None => ResolveOutcome::External,
                        }
                    } else {
                        resolve_nm_steps(fs, module, kind, nm, segs, t + 1)
                    };
                    match obj_get_spec(doc, kw_exports()) {
                        Some(ex) => match ex {
                            crate::json::JsonModel::Str(s) => ResolveOutcome::Found(
                                crate::fsview::join_spec(pkg_dir, s),
                            ),
                            crate::json::JsonModel::Arr(items) => match scan_export_list(
                                items,
                                kind,
                            ) {
                                ExportScan::Found(s) => ResolveOutcome::Found(
                                    crate::fsview::join_spec(pkg_dir, s),
                                ),
                                ExportScan::Bad => ResolveOutcome::BadExport,
                                ExportScan::Missing => after,
                            },
                            crate::json::JsonModel::Obj(fields) => {
                                match obj_lookup(fields, rel_key(module, mp), 0) {
                                    Some(value) => match handle_export_spec(value, kind) {
                                        ExportScan::Found(s) => ResolveOutcome::Found(
                                            crate::fsview::join_spec(pkg_dir, s),
                                        ),
                                        _ => ResolveOutcome::BadExport,
                                    },
                                    None => after,
                                }
                            },
                            _ => after,
                        },
                        None => after,
                    }
                },
            }
        }
    }
}

/// What resolving a bare specifier against `node_modules` yields.
pub open spec fn resolve_nm_spec(
    fs: crate::fsview::FsView,
    module: Seq<char>,
    kind: ImportKind,
    nm: Seq<char>,
) -> ResolveOutcome {
    resolve_nm_steps(fs, module, kind, nm, crate::path_clean::spec_segs(module), 1)
}

/// Reads one exports value; an error is a shape resolution refuses.
fn handle_export(v: &crate::json::JsonValue, kind: ImportKind) -> (r: Result<Option<String>, ()>)
    ensures
        match r {
            Ok(Some(s)) => handle_export_spec(crate::json::json_model(*v), kind)
                == ExportScan::Found(s@),
            Ok(None) => handle_export_spec(crate::json::json_model(*v), kind) is Missing,
            Err(_) => handle_export_spec(crate::json::json_model(*v), kind) is Bad,
        },
    decreases *v,
{
    match v {
        crate::json::JsonValue::Str(s) => Ok(Some(s.clone())),
        crate::json::JsonValue::Arr(items) => {
            proof {
                crate::json::lemma_json_models_index(items@);
            }
            let ghost models = crate::json::json_models(items@);
            proof {
                assert(models.skip(0) =~= models);
            }
            let mut i: usize = 0;
            while i < items.len()
                invariant
                    *v == crate::json::JsonValue::Arr(*items),
                    crate::json::json_model(*v) == crate::json::JsonModel::Arr(models),
                    models == crate::json::json_models(items@),
                    models.len() == items@.len(),
                    forall|j: int|
                        0 <= j < items@.len() ==> #[trigger] models[j] == crate::json::json_model(
                            items@[j],
                        ),
                    i <= items@.len(),
                    scan_export_list(models, kind) == scan_export_list(
                        models.skip(i as int),
                        kind,
                    ),
                decreases items@.len() - i,
            {
                proof {
                    assert(decreases_to!(*v => v->Arr_0));
                    assert(v->Arr_0 == *items);
                    assert(decreases_to!(*items => items@));
                    assert(decreases_to!(items@ => items@[i as int]));
                }
                match handle_export(&items[i], kind) {
                    Ok(Some(s)) => {
                        proof {
                            assert(models.skip(i as int)[0] == models[i as int]);
                        }
                        return Ok(Some(s));
                    },
                    Ok(None) => {
                        proof {
                            assert(models.skip(i as int)[0] == models[i as int]);
                            assert(models.skip(i as int).skip(1) =~= models.skip(i as int + 1));
                        }
                        i = i + 1;
                    },
                    Err(e) => {
                        proof {
                            assert(models.skip(i as int)[0] == models[i as int]);
                        }
                        return Err(e);
                    },
                }
            }
            proof {
                assert(models.skip(items@.len() as int).len() == 0);
            }
            Ok(None)
        },
        crate::json::JsonValue::Obj(fields) => {
            proof {
                crate::json::lemma_json_field_models_index(fields@);
            }
            let ghost fmodels = crate::json::json_field_models(fields@);
            if fields.len() == 0 {
                return Err(());
            }
            let mut i: usize = 0;
            while i < fields.len()
                invariant
                    *v == crate::json::JsonValue::Obj(*fields),
                    crate::json::json_model(*v) == crate::json::JsonModel::Obj(fmodels),
                    fmodels == crate::json::json_field_models(fields@),
                    fmodels.len() == fields@.len(),
                    forall|j: int|
                        0 <= j < fields@.len() ==> #[trigger] fmodels[j] == (
                            fields@[j].0@,
                            crate::json::json_model(fields@[j].1),
                        ),
                    fields@.len() > 0,
                    i <= fields@.len(),
                    cond_pick(fmodels, kind, 0) == cond_pick(fmodels, kind, i as nat),
                decreases fields@.len() - i,
            {
                let key = &fields[i].0;
                let applies = (matches!(kind, ImportKind::Esm) && str_eq(key.as_str(), "import"))
                    || (matches!(kind, ImportKind::Require) && str_eq(key.as_str(), "require"))
                    || str_eq(key.as_str(), "default");
                proof {
                    reveal_strlit("import");
                    reveal_strlit("require");
                    reveal_strlit("default");
                    assert("import"@ =~= crate::parser::kw_import());
                    assert("require"@ =~= crate::parser::kw_require());
                    assert("default"@ =~= kw_default());
                    assert(applies == cond_key_matches(fmodels[i as int].0, kind));
                }
                if applies {
                    match &fields[i].1 {
                        crate::json::JsonValue::Str(s) => {
                            return Ok(Some(s.clone()));
                        },
                        _ => {
                            return Err(());
                        },
                    }
                }
                i = i + 1;
            }
            match &fields[0].1 {
                crate::json::JsonValue::Str(s) => Ok(Some(s.clone())),
                _ => Err(()),
            }
        },
        crate::json::JsonValue::Other => Ok(None),
    }
}

/// The field of a document under `key`, where the document is an object
/// that has it.
fn obj_get<'a>(doc: &'a crate::json::JsonValue, key: &str) -> (r: Option<
    &'a crate::json::JsonValue,
>)
    ensures
        match r {
            Some(x) => obj_get_spec(crate::json::json_model(*doc), key@) == Some(
                crate::json::json_model(*x),
            ),
            None => obj_get_spec(crate::json::json_model(*doc), key@) is None,
        },
{
    match doc {
        crate::json::JsonValue::Obj(fields) => {
            proof {
                crate::json::lemma_json_field_models_index(fields@);
            }
            let ghost fmodels = crate::json::json_field_models(fields@);
            let mut i: usize = 0;
            while i < fields.len()
                invariant
                    *doc == crate::json::JsonValue::Obj(*fields),
                    crate::json::json_model(*doc) == crate::json::JsonModel::Obj(fmodels),
                    fmodels == crate::json::json_field_models(fields@),
                    fmodels.len() == fields@.len(),
                    forall|j: int|
                        0 <= j < fields@.len() ==> #[trigger] fmodels[j] == (
                            fields@[j].0@,
                            crate::json::json_model(fields@[j].1),
                        ),
                    i <= fields@.len(),
                    obj_lookup(fmodels, key@, 0) == obj_lookup(fmodels, key@, i as nat),
                decreases fields@.len() - i,
            {
                if str_eq(fields[i].0.as_str(), key) {
                    return Some(&fields[i].1);
                }
                i = i + 1;
            }
            None
        },
        _ => None,
    }
}

/// Resolves a bare specifier against the `node_modules` directory: walks the
/// specifier's component prefixes, reading each prefix's manifest, until one
/// names a target or the walk runs out.  `Ok(None)` marks an external import
/// the store will not track.
pub fn resolve_node_module(
    fs: &crate::fsview::FsView,
    module: &str,
    kind: ImportKind,
    node_modules: &str,
) -> (r: Result<Option<String>, WatchError>)
    requires
        crate::fsview::fs_wf(*fs),
    ensures
        ({
            let o = resolve_nm_spec(*fs, module@, kind, node_modules@);
            match r {
                Ok(Some(p)) => o == ResolveOutcome::Found(p@),
                Ok(None) => o is External,
                Err(e) => match e {
                    WatchError::BadPackageJson(p) => o == ResolveOutcome::BadJson(p@),
                    WatchError::BadExportValue(m) => o is BadExport && m@ == module@,
                    _ => false,
                },
            }
        }),
{
    let ghost sseg = crate::path_clean::spec_segs(module@);
    let segs = crate::path_clean::split_segments(module);
    if segs.len() == 0 {
        return Ok(None);
    }
    let nm_sep = crate::fsview::dir_sep_of(node_modules);
    let mut root_pkg_dir = nm_sep.clone();
    root_pkg_dir.append(segs[0].as_str());
    let mut mp = String::new();
    let mut t: usize = 1;
    loop
        invariant
            crate::fsview::fs_wf(*fs),
            sseg == crate::path_clean::spec_segs(module@),
            segs.deep_view() == sseg,
            segs@.len() == sseg.len(),
            1 <= t <= segs@.len(),
            nm_sep@ == crate::fsview::dir_sep(node_modules@),
            root_pkg_dir@ == crate::fsview::dir_sep(node_modules@) + sseg[0],
            mp@ == crate::path_clean::join_segs(sseg.take(t - 1)),
            resolve_nm_spec(*fs, module@, kind, node_modules@) == resolve_nm_steps(
                *fs,
                module@,
                kind,
                node_modules@,
                sseg,
                t as nat,
            ),
        decreases segs@.len() - t,
    {
        proof {
            assert(sseg.take(t as int) =~= sseg.take(t - 1).push(sseg[t - 1]));
            crate::path_clean::lemma_join_push(sseg.take(t - 1), sseg[t - 1]);
        }
        if t == 1 {
            mp = segs[0].clone();
        } else {
            mp.append("/");
            mp.append(segs[t - 1].as_str());
            proof {
                reveal_strlit("/");
                assert("/"@ =~= seq!['/']);
            }
        }
        proof {
            assert(mp@ == crate::path_clean::join_segs(sseg.take(t as int)));
        }
        let mut pkg_dir = nm_sep.clone();
        pkg_dir.append(mp.as_str());
        let mut pkg_path = pkg_dir.clone();
        pkg_path.append("/");
        pkg_path.append("package.json");
        proof {
            reveal_strlit("/");
            reveal_strlit("package.json");
            assert("/"@ =~= seq!['/']);
            assert("package.json"@ =~= kw_package_json());
        }
        let content = match crate::fsview::fs_read(fs, pkg_path.as_str()) {
            Some(c) => c,
            None => {
                return Ok(None);
            },
        };
        let doc = match crate::json::parse_json(content.as_str()) {
            Some(d) => d,
            None => {
                return Err(WatchError::BadPackageJson(pkg_path));
            },
        };
        proof {
            reveal_strlit("exports");
            assert("exports"@ =~= kw_exports());
        }
        match obj_get(&doc, "exports") {
            Some(ex) => {
                match ex {
                    crate::json::JsonValue::Str(s) => {
                        return Ok(Some(crate::fsview::join_under(pkg_dir.as_str(), s.as_str())));
                    },
                    crate::json::JsonValue::Arr(_) => {
                        match handle_export(ex, kind) {
                            Ok(Some(s)) => {
                                return Ok(
                                    Some(
                                        crate::fsview::join_under(pkg_dir.as_str(), s.as_str()),
                                    ),
                                );
                            },
                            Ok(None) => {},
                            Err(_) => {
                                return Err(WatchError::BadExportValue(module.to_owned()));
                            },
                        }
                    },
                    crate::json::JsonValue::Obj(_) => {
                        let rel = rel_key_of(module, mp.as_str());
                        match obj_get(ex, rel.as_str()) {
                            Some(value) => {
                                match handle_export(value, kind) {
                                    Ok(Some(s)) => {
                                        return Ok(
                                            Some(
                                                crate::fsview::join_under(
                                                    pkg_dir.as_str(),
                                                    s.as_str(),
                                                ),
                                            ),
                                        );
                                    },
                                    _ => {
                                        return Err(
                                            WatchError::BadExportValue(module.to_owned()),
                                        );
                                    },
                                }
                            },
                            None => {},
                        }
                    },
                    crate::json::JsonValue::Other => {},
                }
            },
            None => {},
        }
        if t == segs.len() {
            proof {
                reveal_strlit("main");
                assert("main"@ =~= kw_main());
            }
            match obj_get(&doc, "main") {
                Some(m) => match m {
                    crate::json::JsonValue::Str(target) => {
                        return Ok(
                            Some(
                                crate::fsview::join_under(root_pkg_dir.as_str(), target.as_str()),
                            ),
                        );
                    },
                    _ => {
                        return Ok(None);
                    },
                },
                None => {
                    return Ok(None);
                },
            }
        }
        t = t + 1;
    }
}

/// The store only grows, and present entries keep their value.
pub open spec fn store_frame(
    m0: Map<Seq<char>, Seq<Seq<char>>>,
    m1: Map<Seq<char>, Seq<Seq<char>>>,
) -> bool {
    &&& m0.dom().subset_of(m1.dom())
    &&& forall|k: Seq<char>| #[trigger] m0.dom().contains(k) ==> m1[k] == m0[k]
}

/// Every recorded dependency is itself tracked, unless its extension marks
/// it as no module source (such imports are recorded but never parsed).
pub open spec fn deps_closed(
    opts: Option<MakeEntriesOptions>,
    m: Map<Seq<char>, Seq<Seq<char>>>,
) -> bool {
    forall|k: Seq<char>, j: int|
        m.dom().contains(k) && 0 <= j < m[k].len() ==> m.dom().contains(#[trigger] m[k][j])
            || !is_module_path(opts, m[k][j])
}

/// Like `deps_closed`, but one path may be missing from the store: the walk
/// that re-ingests a changed entry removes its record first.
pub open spec fn deps_closed_except(
    opts: Option<MakeEntriesOptions>,
    m: Map<Seq<char>, Seq<Seq<char>>>,
    x: Seq<char>,
) -> bool {
    forall|k: Seq<char>, j: int|
        m.dom().contains(k) && 0 <= j < m[k].len() ==> m.dom().contains(#[trigger] m[k][j])
            || m[k][j] == x || !is_module_path(opts, m[k][j])
}

/// Every recorded dependency list is free of repeats.
pub open spec fn deps_nodup(m: Map<Seq<char>, Seq<Seq<char>>>) -> bool {
    forall|k: Seq<char>| #[trigger] m.dom().contains(k) ==> m[k].no_duplicates()
}

/// Every key the run added points at a file of the snapshot.
pub open spec fn keys_from_fs(
    fs: crate::fsview::FsView,
    m0: Map<Seq<char>, Seq<Seq<char>>>,
    m1: Map<Seq<char>, Seq<Seq<char>>>,
) -> bool {
    forall|k: Seq<char>|
        #[trigger] m1.dom().contains(k) && !m0.dom().contains(k) ==> crate::fsview::fs_has(fs, k)
}

/// Every tracked key is a module path.
pub open spec fn keys_module(
    opts: Option<MakeEntriesOptions>,
    m: Map<Seq<char>, Seq<Seq<char>>>,
) -> bool {
    forall|k: Seq<char>| #[trigger] m.dom().contains(k) ==> is_module_path(opts, k)
}

/// Every key the run added is a module path.
pub open spec fn new_keys_module(
    opts: Option<MakeEntriesOptions>,
    m0: Map<Seq<char>, Seq<Seq<char>>>,
    m1: Map<Seq<char>, Seq<Seq<char>>>,
) -> bool {
    forall|k: Seq<char>|
        #[trigger] m1.dom().contains(k) && !m0.dom().contains(k) ==> is_module_path(opts, k)
}

/// How many snapshot files the store does not track yet.
pub open spec fn untracked_count(
    fs: crate::fsview::FsView,
    m: Map<Seq<char>, Seq<Seq<char>>>,
) -> nat {
    crate::fsview::fs_paths(fs).to_set().difference(m.dom()).len()
}

/// A file of the snapshot is in the snapshot's path set.
proof fn lemma_fs_has_in_paths(fs: crate::fsview::FsView, k: Seq<char>)
    requires
        crate::fsview::fs_has(fs, k),
    ensures
        crate::fsview::fs_paths(fs).to_set().contains(k),
{
    let i = choose|i: int| 0 <= i < fs.files@.len() && #[trigger] fs.files@[i].path@ == k;
    assert(crate::fsview::fs_paths(fs)[i] == k);
    assert(crate::fsview::fs_paths(fs).contains(k));
}

/// Tracking one more snapshot file strictly shrinks the untracked count.
proof fn lemma_untracked_insert(
    fs: crate::fsview::FsView,
    m: Map<Seq<char>, Seq<Seq<char>>>,
    k: Seq<char>,
    v: Seq<Seq<char>>,
)
    requires
        crate::fsview::fs_has(fs, k),
        !m.dom().contains(k),
    ensures
        untracked_count(fs, m.insert(k, v)) < untracked_count(fs, m),
{
    broadcast use vstd::seq_lib::seq_to_set_is_finite;

    let a = crate::fsview::fs_paths(fs).to_set();
    lemma_fs_has_in_paths(fs, k);
    vstd::set_lib::lemma_len_subset(a.difference(m.dom()), a);
    assert(a.difference(m.insert(k, v).dom()) =~= a.difference(m.dom()).remove(k));
    assert(a.difference(m.dom()).contains(k));
}

/// A store that only grew within the snapshot leaves no fewer files tracked.
proof fn lemma_untracked_mono(
    fs: crate::fsview::FsView,
    m0: Map<Seq<char>, Seq<Seq<char>>>,
    m1: Map<Seq<char>, Seq<Seq<char>>>,
)
    requires
        m0.dom().subset_of(m1.dom()),
    ensures
        untracked_count(fs, m1) <= untracked_count(fs, m0),
{
    broadcast use vstd::seq_lib::seq_to_set_is_finite;

    let a = crate::fsview::fs_paths(fs).to_set();
    vstd::set_lib::lemma_len_subset(a.difference(m0.dom()), a);
    vstd::set_lib::lemma_len_subset(a.difference(m1.dom()), a.difference(m0.dom()));
}

/// The mathematical shape of an ingestion error.
pub enum ErrModel {
    MissingFile(Seq<char>),
    NoExtension(Seq<char>),
    CompletionFailed(Seq<char>),
    InvalidPath(Seq<char>),
    NoNodeModules,
    BadPattern(Seq<char>),
    BadPackageJson(Seq<char>),
    BadExportValue(Seq<char>),
    EntryUntracked(Seq<char>),
}

/// The model of one error value.
pub open spec fn err_model(e: WatchError) -> ErrModel {
    match e {
        WatchError::MissingFile(p) => ErrModel::MissingFile(p@),
        WatchError::NoExtension(p) => ErrModel::NoExtension(p@),
        WatchError::CompletionFailed(p) => ErrModel::CompletionFailed(p@),
        WatchError::InvalidPath(p) => ErrModel::InvalidPath(p@),
        WatchError::NoNodeModules => ErrModel::NoNodeModules,
        WatchError::BadPattern(p) => ErrModel::BadPattern(p@),
        WatchError::BadPackageJson(p) => ErrModel::BadPackageJson(p@),
        WatchError::BadExportValue(p) => ErrModel::BadExportValue(p@),
        WatchError::EntryUntracked(p) => ErrModel::EntryUntracked(p@),
    }
}

/// What one parsed specifier leads to: a file of the snapshot, an external
/// import, or a fatal condition.
pub enum ImportOutcome {
    Dep(Seq<char>),
    External,
    Fail(ErrModel),
}

/// Resolves one parsed specifier against the snapshot: a relative specifier
/// joins under the importing file's directory, a project-rooted one under
/// the project root, a bare one goes through the package walk; the candidate
/// is then completed to a file of the snapshot.
pub open spec fn resolve_import_spec(
    fs: crate::fsview::FsView,
    importer: Seq<char>,
    project: Seq<char>,
    kind: ImportKind,
    text: Seq<char>,
) -> ImportOutcome {
    let cand = if crate::strutil::has_prefix(text, seq!['.', '/']) || crate::strutil::has_prefix(
        text,
        seq!['.', '.', '/'],
    ) {
        match crate::fsview::parent_spec(importer) {
            Some(dir) => ImportOutcome::Dep(crate::fsview::join_spec(dir, text)),
            None => ImportOutcome::Fail(ErrModel::InvalidPath(importer)),
        }
    } else if crate::strutil::has_prefix(text, seq!['~', '/']) {
        ImportOutcome::Dep(crate::fsview::join_spec(project, text.skip(2)))
    } else {
        match node_modules_from(fs, project) {
            Some(nm) => match resolve_nm_spec(fs, text, kind, nm) {
                ResolveOutcome::Found(p) => ImportOutcome::Dep(p),
                ResolveOutcome::External => ImportOutcome::External,
                ResolveOutcome::BadJson(p) => ImportOutcome::Fail(ErrModel::BadPackageJson(p)),
                ResolveOutcome::BadExport => ImportOutcome::Fail(ErrModel::BadExportValue(text)),
            },
            None => ImportOutcome::Fail(ErrModel::NoNodeModules),
        }
    };
    match cand {
        ImportOutcome::Dep(c) => {
            if crate::fsview::is_dir_spec(fs, c) {
                match crate::fsview::resolve_index_spec(fs, c) {
                    Some(p) => ImportOutcome::Dep(p),
                    None => ImportOutcome::Fail(ErrModel::CompletionFailed(c)),
                }
            } else if ext_spec(c) is Some {
                ImportOutcome::Dep(c)
            } else {
                match crate::fsview::resolve_ext_spec(fs, c) {
                    Some(p) => ImportOutcome::Dep(p),
                    None => ImportOutcome::Fail(ErrModel::CompletionFailed(c)),
                }
            }
        },
        other => other,
    }
}

/// Appends a path unless the list already holds it.
pub open spec fn push_unique(acc: Seq<Seq<char>>, x: Seq<char>) -> Seq<Seq<char>> {
    if acc.contains(x) {
        acc
    } else {
        acc.push(x)
    }
}

/// Folds a dependency list in, each element once, from position `i` on.
pub open spec fn fold_unique(acc: Seq<Seq<char>>, xs: Seq<Seq<char>>, i: nat) -> Seq<Seq<char>>
    decreases xs.len() - i,
{
    if i >= xs.len() {
        acc
    } else {
        fold_unique(push_unique(acc, xs[i as int]), xs, i + 1)
    }
}

/// How the walk over one file's imports ends: the collected transitive
/// list, an abandonment on an external import, or a fatal condition.
pub enum WalkResult {
    Finished(Seq<Seq<char>>),
    Stopped,
    Failed(ErrModel),
}

/// The walk over one file's parsed imports from position `idx` on: each
/// specifier is resolved and completed, the target ingested, and the
/// target with its recorded list folded into the accumulator.
pub open spec fn walk_imports_spec(
    fs: crate::fsview::FsView,
    opts: Option<MakeEntriesOptions>,
    project: Seq<char>,
    m: Map<Seq<char>, Seq<Seq<char>>>,
    importer: Seq<char>,
    imports: Seq<(ImportKind, Seq<char>)>,
    idx: nat,
    acc: Seq<Seq<char>>,
    fuel: nat,
) -> (Map<Seq<char>, Seq<Seq<char>>>, WalkResult)
    decreases fuel, 0nat, imports.len() - idx,
{
    if idx >= imports.len() {
        (m, WalkResult::Finished(acc))
    } else {
        match resolve_import_spec(fs, importer, project, imports[idx as int].0, imports[idx as int].1) {
            ImportOutcome::Fail(e) => (m, WalkResult::Failed(e)),
            ImportOutcome::External => (m, WalkResult::Stopped),
            ImportOutcome::Dep(cand) => {
                if fuel == 0 {
                    (m, WalkResult::Stopped)
                } else {
                    let step = ingest_spec(fs, opts, project, m, cand, (fuel - 1) as nat);
                    match step.1 {
                        Err(e) => (step.0, WalkResult::Failed(e)),
                        Ok(child) => {
                            let acc1 = push_unique(acc, cand);
                            let acc2 = match child {
                                Some(cd) => fold_unique(acc1, cd, 0),
                                None => acc1,
                            };
                            walk_imports_spec(
                                fs,
                                opts,
                                project,
                                step.0,
                                importer,
                                imports,
                                idx + 1,
                                acc2,
                                fuel,
                            )
                        },
                    }
                }
            },
        }
    }
}

/// The ingestion of one file, as a function of the snapshot and the store:
/// a tracked file answers from its record; an extensionless or unreadable
/// file is a fatal condition; a file no statement family covers stays
/// untracked; otherwise a placeholder goes in, the imports are walked, and
/// the collected list is recorded, or the empty placeholder stays when the
/// walk stopped on an external import.
pub open spec fn ingest_spec(
    fs: crate::fsview::FsView,
    opts: Option<MakeEntriesOptions>,
    project: Seq<char>,
    m: Map<Seq<char>, Seq<Seq<char>>>,
    path: Seq<char>,
    fuel: nat,
) -> (Map<Seq<char>, Seq<Seq<char>>>, Result<Option<Seq<Seq<char>>>, ErrModel>)
    decreases fuel, 1nat, 0nat,
{
    if m.contains_key(path) {
        (m, Ok(Some(m[path])))
    } else {
        match ext_spec(path) {
            None => (m, Err(ErrModel::NoExtension(path))),
            Some(e) => {
                let c = conditions_spec(opts, e);
                if !(c.css || c.esm || c.lazy_esm || c.require) {
                    (m, Ok(None))
                } else if !crate::fsview::fs_has(fs, path) {
                    (m, Err(ErrModel::MissingFile(path)))
                } else {
                    let m1 = m.insert(path, Seq::empty());
                    let imports = crate::parser::scan_spec(
                        crate::fsview::fs_content(fs, path),
                        0,
                        c,
                    );
                    let walk = walk_imports_spec(
                        fs,
                        opts,
                        project,
                        m1,
                        path,
                        imports,
                        0,
                        Seq::empty(),
                        fuel,
                    );
                    match walk.1 {
                        WalkResult::Finished(acc) => (walk.0.insert(path, acc), Ok(Some(acc))),
                        WalkResult::Stopped => (walk.0, Ok(None)),
                        WalkResult::Failed(err) => (walk.0, Err(err)),
                    }
                }
            },
        }
    }
}

/// Ingests the file at `file_path` into the store, following
/// [`ingest_spec`]: a placeholder first, then every import parsed, resolved,
/// completed against the snapshot and ingested in turn, the collected
/// transitive dependencies written last.
fn ingest_at(
    fs: &crate::fsview::FsView,
    file_path: &str,
    project_path: &str,
    store: &mut crate::store::Store,
    opts: &Option<MakeEntriesOptions>,
    fuel: u64,
) -> (r: Result<Option<Vec<String>>, WatchError>)
    requires
        crate::fsview::fs_wf(*fs),
        deps_closed_except(*opts, old(store)@, file_path@),
        deps_nodup(old(store)@),
        fuel > untracked_count(*fs, old(store)@),
    ensures
        store_frame(old(store)@, final(store)@),
        keys_from_fs(*fs, old(store)@, final(store)@),
        new_keys_module(*opts, old(store)@, final(store)@),
        deps_closed(*opts, old(store)@) ==> deps_closed(*opts, final(store)@),
        deps_closed_except(*opts, final(store)@, file_path@),
        final(store)@.contains_key(file_path@) ==> deps_closed(*opts, final(store)@),
        deps_nodup(final(store)@),
        old(store)@.contains_key(file_path@) ==> final(store)@ == old(store)@ && (match r {
            Ok(v) => v matches Some(d) && d.deep_view() == old(store)@[file_path@],
            Err(_) => false,
        }),
        !old(store)@.contains_key(file_path@) && is_module_path(*opts, file_path@)
            && crate::fsview::fs_has(*fs, file_path@) ==> final(store)@.contains_key(file_path@),
        !old(store)@.contains_key(file_path@) && !is_module_path(*opts, file_path@)
            && ext_spec(file_path@) is Some ==> final(store)@ == old(store)@ && (match r {
            Ok(v) => v is None,
            Err(_) => false,
        }),
        (match r {
            Ok(v) => match v {
                Some(d) => final(store)@.contains_key(file_path@) && final(store)@[file_path@]
                    == d.deep_view() && d.deep_view().no_duplicates(),
                None => !old(store)@.contains_key(file_path@) && ((!is_module_path(
                    *opts,
                    file_path@,
                ) && ext_spec(file_path@) is Some && final(store)@ == old(store)@)
                    || (final(store)@.contains_key(file_path@)
                    && final(store)@[file_path@].len() == 0)),
            },
            Err(_) => true,
        }),
        final(store)@ == ingest_spec(
            *fs,
            *opts,
            project_path@,
            old(store)@,
            file_path@,
            fuel as nat,
        ).0,
        (match r {
            Ok(v) => ingest_spec(
                *fs,
                *opts,
                project_path@,
                old(store)@,
                file_path@,
                fuel as nat,
            ).1 matches Ok(mv) && (match v {
                Some(d) => mv matches Some(ms) && ms == d.deep_view(),
                None => mv is None,
            }),
            Err(e) => ingest_spec(
                *fs,
                *opts,
                project_path@,
                old(store)@,
                file_path@,
                fuel as nat,
            ).1 matches Err(me) && me == err_model(e),
        }),
    decreases fuel,
{
    let ghost m0 = store@;
    let ghost model = ingest_spec(*fs, *opts, project_path@, m0, file_path@, fuel as nat);
    if let Some(v) = store.get(file_path) {
        proof {
            assert(deps_closed(*opts, store@)) by {
                assert(store@.dom().contains(file_path@));
            }
            assert(model.0 == m0);
            assert(model.1 == Ok::<Option<Seq<Seq<char>>>, ErrModel>(Some(m0[file_path@])));
        }
        return Ok(Some(v));
    }
    let ext = match crate::fsview::extension(file_path) {
        Some(e) => e,
        None => {
            proof {
                assert(model.0 == m0);
                assert(model.1 == Err::<Option<Seq<Seq<char>>>, ErrModel>(
                    ErrModel::NoExtension(file_path@),
                ));
            }
            return Err(WatchError::NoExtension(file_path.to_owned()));
        },
    };
    let conds = conditions_for(opts, ext.as_str());
    if !(conds.css || conds.esm || conds.lazy_esm || conds.require) {
        proof {
            assert(!is_module_path(*opts, file_path@));
            assert(model.0 == m0);
            assert(model.1 == Ok::<Option<Seq<Seq<char>>>, ErrModel>(None));
        }
        return Ok(None);
    }
    proof {
        assert(is_module_path(*opts, file_path@));
    }
    let content = match crate::fsview::fs_read(fs, file_path) {
        Some(c) => c,
        None => {
            proof {
                assert(model.0 == m0);
                assert(model.1 == Err::<Option<Seq<Seq<char>>>, ErrModel>(
                    ErrModel::MissingFile(file_path@),
                ));
            }
            return Err(WatchError::MissingFile(file_path.to_owned()));
        },
    };
    let ghost ge = ext@;
    let ghost gconds = conds;
    store.insert(file_path.to_owned(), Vec::new());
    let ghost m1 = store@;
    proof {
        lemma_untracked_insert(*fs, m0, file_path@, Seq::empty());
        assert forall|k: Seq<char>, j: int|
            store@.dom().contains(k) && 0 <= j < store@[k].len() implies store@.dom().contains(
            #[trigger] store@[k][j],
        ) || !is_module_path(*opts, store@[k][j]) by {
            if k != file_path@ {
                assert(m0.dom().contains(k));
                assert(store@[k] == m0[k]);
                assert(m0.dom().contains(m0[k][j]) || m0[k][j] == file_path@ || !is_module_path(
                    *opts,
                    m0[k][j],
                ));
            }
        }
        assert(deps_closed(*opts, store@));
        assert(m1 =~~= m0.insert(file_path@, Seq::<Seq<char>>::empty()));
    }
    let imports = crate::parser::parse_deps(content.as_str(), conds);
    let ghost im = crate::parser::deps_model(imports@);
    proof {
        assert(im == crate::parser::scan_spec(
            crate::fsview::fs_content(*fs, file_path@),
            0,
            gconds,
        ));
    }
    let mut all_deps: Vec<String> = Vec::new();
    let mut idx: usize = 0;
    while idx < imports.len()
        invariant
            crate::fsview::fs_wf(*fs),
            idx <= imports@.len(),
            m0 == old(store)@,
            model == ingest_spec(*fs, *opts, project_path@, m0, file_path@, fuel as nat),
            is_module_path(*opts, file_path@),
            ext_spec(file_path@) == Some(ge),
            gconds == conditions_spec(*opts, ge),
            gconds.css || gconds.esm || gconds.lazy_esm || gconds.require,
            m1 == m0.insert(file_path@, Seq::<Seq<char>>::empty()),
            im == crate::parser::scan_spec(
                crate::fsview::fs_content(*fs, file_path@),
                0,
                gconds,
            ),
            im == crate::parser::deps_model(imports@),
            im.len() == imports@.len(),
            store@.contains_key(file_path@),
            store@[file_path@].len() == 0,
            !m0.contains_key(file_path@),
            crate::fsview::fs_has(*fs, file_path@),
            store_frame(m0, store@),
            keys_from_fs(*fs, m0, store@),
            new_keys_module(*opts, m0, store@),
            deps_closed(*opts, store@),
            deps_nodup(store@),
            fuel > untracked_count(*fs, store@) + 1,
            all_deps.deep_view().no_duplicates(),
            forall|j: int|
                0 <= j < all_deps@.len() ==> store@.contains_key(
                    #[trigger] all_deps.deep_view()[j],
                ) || !is_module_path(*opts, all_deps.deep_view()[j]),
            walk_imports_spec(
                *fs,
                *opts,
                project_path@,
                store@,
                file_path@,
                im,
                idx as nat,
                all_deps.deep_view(),
                fuel as nat,
            ) == walk_imports_spec(
                *fs,
                *opts,
                project_path@,
                m1,
                file_path@,
                im,
                0,
                Seq::<Seq<char>>::empty(),
                fuel as nat,
            ),
        decreases imports@.len() - idx,
    {
        let (source, kind) = match &imports[idx] {
            crate::parser::ImportDep::ESM(s) => (s, ImportKind::Esm),
            crate::parser::ImportDep::REQUIRE(s) => (s, ImportKind::Require),
            crate::parser::ImportDep::CSS(s) => (s, ImportKind::Css),
        };
        proof {
            reveal_strlit("./");
            reveal_strlit("../");
            reveal_strlit("~/");
            assert("./"@ =~= seq!['.', '/']);
            assert("../"@ =~= seq!['.', '.', '/']);
            assert("~/"@ =~= seq!['~', '/']);
            assert(im[idx as int] == (kind, source@));
        }
        let ghost step = resolve_import_spec(*fs, file_path@, project_path@, kind, source@);
        let cand0 = if crate::strutil::str_has_prefix(source.as_str(), "./")
            || crate::strutil::str_has_prefix(source.as_str(), "../") {
            let dir = match crate::fsview::parent_dir(file_path) {
                Some(d) => d,
                None => {
                    proof {
                        assert(step == ImportOutcome::Fail(ErrModel::InvalidPath(file_path@)));
                        assert(model.0 == store@);
                        assert(model.1 == Err::<Option<Seq<Seq<char>>>, ErrModel>(
                            ErrModel::InvalidPath(file_path@),
                        ));
                    }
                    return Err(WatchError::InvalidPath(file_path.to_owned()));
                },
            };
            crate::fsview::join_under(dir.as_str(), source.as_str())
        } else if crate::strutil::str_has_prefix(source.as_str(), "~/") {
            let n = source.as_str().unicode_len();
            let rest = source.as_str().substring_char(2, n);
            proof {
                assert(rest@ =~= source@.skip(2));
            }
            crate::fsview::join_under(project_path, rest)
        } else {
            let nm = match find_node_modules_dir(fs, project_path) {
                Some(p) => p,
                None => {
                    proof {
                        assert(step == ImportOutcome::Fail(ErrModel::NoNodeModules));
                        assert(model.0 == store@);
                        assert(model.1 == Err::<Option<Seq<Seq<char>>>, ErrModel>(
                            ErrModel::NoNodeModules,
                        ));
                    }
                    return Err(WatchError::NoNodeModules);
                },
            };
            match resolve_node_module(fs, source.as_str(), kind, nm.as_str()) {
                Ok(Some(p)) => p,
                Ok(None) => {
                    proof {
                        assert(step == ImportOutcome::External);
                        assert(model.0 == store@);
                        assert(model.1 == Ok::<Option<Seq<Seq<char>>>, ErrModel>(None));
                    }
                    return Ok(None);
                },
                Err(e) => {
                    proof {
                        assert(step == ImportOutcome::Fail(err_model(e)));
                        assert(model.0 == store@);
                        assert(model.1 == Err::<Option<Seq<Seq<char>>>, ErrModel>(err_model(e)));
                    }
                    return Err(e);
                },
            }
        };
        let cand = if crate::fsview::fs_is_dir(fs, cand0.as_str()) {
            match crate::fsview::resolve_index(fs, cand0.as_str()) {
                Some(p) => p,
                None => {
                    proof {
                        assert(step == ImportOutcome::Fail(ErrModel::CompletionFailed(cand0@)));
                        assert(model.0 == store@);
                        assert(model.1 == Err::<Option<Seq<Seq<char>>>, ErrModel>(
                            ErrModel::CompletionFailed(cand0@),
                        ));
                    }
                    return Err(WatchError::CompletionFailed(cand0));
                },
            }
        } else {
            match crate::fsview::extension(cand0.as_str()) {
                Some(_) => cand0,
                None => match crate::fsview::resolve_with_extension(fs, cand0.as_str()) {
                    Some(p) => p,
                    None => {
                        proof {
                            assert(step == ImportOutcome::Fail(
                                ErrModel::CompletionFailed(cand0@),
                            ));
                            assert(model.0 == store@);
                            assert(model.1 == Err::<Option<Seq<Seq<char>>>, ErrModel>(
                                ErrModel::CompletionFailed(cand0@),
                            ));
                        }
                        return Err(WatchError::CompletionFailed(cand0));
                    },
                },
            }
        };
        proof {
            assert(step == ImportOutcome::Dep(cand@));
        }
        let ghost pre_child = store@;
        let ghost acc_old = all_deps.deep_view();
        let child = match ingest_at(fs, cand.as_str(), project_path, store, opts, fuel - 1) {
            Ok(c) => c,
            Err(e) => {
                proof {
                    assert(model.0 == store@);
                    assert(model.1 == Err::<Option<Seq<Seq<char>>>, ErrModel>(err_model(e)));
                }
                return Err(e);
            },
        };
        proof {
            lemma_untracked_mono(*fs, pre_child, store@);
        }
        if !crate::store::paths_contain(&all_deps, cand.as_str()) {
            let ghost prev = all_deps.deep_view();
            all_deps.push(cand.clone());
            proof {
                assert(all_deps.deep_view() =~= prev.push(cand@));
                assert forall|x: int, y: int|
                    0 <= x < y < all_deps.deep_view().len() implies all_deps.deep_view()[x]
                    != all_deps.deep_view()[y] by {
                    if y == all_deps.deep_view().len() - 1 {
                        assert(!prev.contains(all_deps.deep_view()[y]));
                    }
                }
                match child {
                    Some(_) => {
                        assert(store@.contains_key(cand@));
                    },
                    None => {},
                }
            }
        }
        proof {
            assert(all_deps.deep_view() == push_unique(acc_old, cand@));
        }
        let ghost acc1 = all_deps.deep_view();
        if let Some(child_deps) = child {
            let ghost cdv = child_deps.deep_view();
            let mut cj: usize = 0;
            while cj < child_deps.len()
                invariant
                    crate::fsview::fs_wf(*fs),
                    cj <= child_deps@.len(),
                    cdv == child_deps.deep_view(),
                    m0 == old(store)@,
                    is_module_path(*opts, file_path@),
                    store@.contains_key(cand@),
                    store@[cand@] == child_deps.deep_view(),
                    store@.contains_key(file_path@),
                    store@[file_path@].len() == 0,
                    !m0.contains_key(file_path@),
                    crate::fsview::fs_has(*fs, file_path@),
                    store_frame(m0, store@),
                    keys_from_fs(*fs, m0, store@),
                    new_keys_module(*opts, m0, store@),
                    deps_closed(*opts, store@),
                    deps_nodup(store@),
                    fuel > untracked_count(*fs, store@) + 1,
                    all_deps.deep_view().no_duplicates(),
                    forall|j: int|
                        0 <= j < all_deps@.len() ==> store@.contains_key(
                            #[trigger] all_deps.deep_view()[j],
                        ) || !is_module_path(*opts, all_deps.deep_view()[j]),
                    fold_unique(acc1, cdv, 0) == fold_unique(
                        all_deps.deep_view(),
                        cdv,
                        cj as nat,
                    ),
                decreases child_deps@.len() - cj,
            {
                if !crate::store::paths_contain(&all_deps, child_deps[cj].as_str()) {
                    let ghost prev = all_deps.deep_view();
                    all_deps.push(child_deps[cj].clone());
                    proof {
                        assert(all_deps.deep_view() =~= prev.push(child_deps@[cj as int]@));
                        assert forall|x: int, y: int|
                            0 <= x < y < all_deps.deep_view().len() implies all_deps.deep_view()[x]
                            != all_deps.deep_view()[y] by {
                            if y == all_deps.deep_view().len() - 1 {
                                assert(!prev.contains(all_deps.deep_view()[y]));
                            }
                        }
                        assert(child_deps.deep_view()[cj as int] == store@[cand@][cj as int]);
                        assert(all_deps.deep_view() == push_unique(prev, cdv[cj as int]));
                    }
                } else {
                    proof {
                        assert(all_deps.deep_view() == push_unique(
                            all_deps.deep_view(),
                            cdv[cj as int],
                        ));
                    }
                }
                cj = cj + 1;
            }
            proof {
                assert(fold_unique(all_deps.deep_view(), cdv, child_deps@.len() as nat)
                    == all_deps.deep_view());
            }
        }
        proof {
            // one walk step consumed: the remaining-walk equation moves on
            assert(walk_imports_spec(
                *fs,
                *opts,
                project_path@,
                pre_child,
                file_path@,
                im,
                idx as nat,
                acc_old,
                fuel as nat,
            ) == walk_imports_spec(
                *fs,
                *opts,
                project_path@,
                store@,
                file_path@,
                im,
                idx as nat + 1,
                all_deps.deep_view(),
                fuel as nat,
            ));
        }
        idx = idx + 1;
    }
    let ghost before_write = store@;
    let ghost acc_fin = all_deps.deep_view();
    store.insert(file_path.to_owned(), all_deps);
    proof {
        assert forall|k: Seq<char>, j: int|
            store@.dom().contains(k) && 0 <= j < store@[k].len() implies store@.dom().contains(
            #[trigger] store@[k][j],
        ) || !is_module_path(*opts, store@[k][j]) by {
            if k == file_path@ {
                assert(before_write.contains_key(store@[k][j]) || !is_module_path(
                    *opts,
                    store@[k][j],
                ));
            } else {
                assert(before_write.dom().contains(k));
                assert(store@[k] == before_write[k]);
                assert(before_write.contains_key(before_write[k][j]) || !is_module_path(
                    *opts,
                    before_write[k][j],
                ));
            }
        }
        assert(walk_imports_spec(
            *fs,
            *opts,
            project_path@,
            before_write,
            file_path@,
            im,
            imports@.len() as nat,
            acc_fin,
            fuel as nat,
        ) == (before_write, WalkResult::Finished(acc_fin)));
        assert(model.0 == before_write.insert(file_path@, acc_fin));
        assert(model.1 == Ok::<Option<Seq<Seq<char>>>, ErrModel>(Some(acc_fin)));
        assert(store@ == model.0);
    }
    match store.get(file_path) {
        Some(v) => Ok(Some(v)),
        None => {
            proof {
                assert(false);
            }
            Err(WatchError::MissingFile(file_path.to_owned()))
        },
    }
}

/// The untracked count never exceeds the snapshot size.
proof fn lemma_untracked_bound(fs: crate::fsview::FsView, m: Map<Seq<char>, Seq<Seq<char>>>)
    ensures
        untracked_count(fs, m) <= fs.files@.len(),
{
    broadcast use vstd::seq_lib::seq_to_set_is_finite;

    let a = crate::fsview::fs_paths(fs).to_set();
    crate::fsview::fs_paths(fs).lemma_cardinality_of_set();
    vstd::set_lib::lemma_len_subset(a.difference(m.dom()), a);
}

/// Ingests one file and everything it transitively imports; see `ingest_at`
/// for the walk.  A file already tracked returns its recorded dependency
/// list and changes nothing, so a second call after a completed one returns
/// the same list.
pub fn make_file_item(
    fs: &crate::fsview::FsView,
    file_path: &str,
    project_path: &str,
    store: &mut crate::store::Store,
    opts: &Option<MakeEntriesOptions>,
) -> (r: Result<Option<Vec<String>>, WatchError>)
    requires
        crate::fsview::fs_wf(*fs),
        deps_closed_except(*opts, old(store)@, file_path@),
        deps_nodup(old(store)@),
        fs.files@.len() < 0xffff_ffff_ffff_ffff,
    ensures
        store_frame(old(store)@, final(store)@),
        keys_from_fs(*fs, old(store)@, final(store)@),
        new_keys_module(*opts, old(store)@, final(store)@),
        deps_closed(*opts, old(store)@) ==> deps_closed(*opts, final(store)@),
        deps_closed_except(*opts, final(store)@, file_path@),
        final(store)@.contains_key(file_path@) ==> deps_closed(*opts, final(store)@),
        deps_nodup(final(store)@),
        old(store)@.contains_key(file_path@) ==> final(store)@ == old(store)@ && (match r {
            Ok(v) => v matches Some(d) && d.deep_view() == old(store)@[file_path@],
            Err(_) => false,
        }),
        !old(store)@.contains_key(file_path@) && is_module_path(*opts, file_path@)
            && crate::fsview::fs_has(*fs, file_path@) ==> final(store)@.contains_key(file_path@),
        !old(store)@.contains_key(file_path@) && !is_module_path(*opts, file_path@)
            && ext_spec(file_path@) is Some ==> final(store)@ == old(store)@ && (match r {
            Ok(v) => v is None,
            Err(_) => false,
        }),
        (match r {
            Ok(v) => match v {
                Some(d) => final(store)@.contains_key(file_path@) && final(store)@[file_path@]
                    == d.deep_view() && d.deep_view().no_duplicates(),
                None => !old(store)@.contains_key(file_path@) && ((!is_module_path(
                    *opts,
                    file_path@,
                ) && ext_spec(file_path@) is Some && final(store)@ == old(store)@)
                    || (final(store)@.contains_key(file_path@)
                    && final(store)@[file_path@].len() == 0)),
            },
            Err(_) => true,
        }),
        final(store)@ == ingest_spec(
            *fs,
            *opts,
            project_path@,
            old(store)@,
            file_path@,
            fs.files@.len() + 1,
        ).0,
        (match r {
            Ok(v) => ingest_spec(
                *fs,
                *opts,
                project_path@,
                old(store)@,
                file_path@,
                fs.files@.len() + 1,
            ).1 matches Ok(mv) && (match v {
                Some(d) => mv matches Some(ms) && ms == d.deep_view(),
                None => mv is None,
            }),
            Err(e) => ingest_spec(
                *fs,
                *opts,
                project_path@,
                old(store)@,
                file_path@,
                fs.files@.len() + 1,
            ).1 matches Err(me) && me == err_model(e),
        }),
{
    let fuel: u64 = (fs.files.len() as u64) + 1;
    proof {
        lemma_untracked_bound(*fs, store@);
        assert(fuel as nat == fs.files@.len() + 1);
    }
    ingest_at(fs, file_path, project_path, store, opts, fuel)
}

/// A glob pattern in its full form: rooted patterns stand as written,
/// relative ones are joined under the project root and cleaned.
pub open spec fn glob_full_spec(project: Seq<char>, g: Seq<char>) -> Seq<char> {
    if g.len() > 0 && g[0] == '/' {
        g
    } else {
        crate::fsview::join_spec(project, g)
    }
}

/// The snapshot paths a full glob pattern matches, in snapshot order, from
/// position `i` on.
pub open spec fn glob_hits_from(fs: crate::fsview::FsView, full: Seq<char>, i: nat) -> Seq<
    Seq<char>,
>
    decreases fs.files@.len() - i,
{
    if i >= fs.files@.len() {
        Seq::empty()
    } else if glob_matches(full, fs.files@[i as int].path@) {
        seq![fs.files@[i as int].path@] + glob_hits_from(fs, full, i + 1)
    } else {
        glob_hits_from(fs, full, i + 1)
    }
}

/// The candidate entry paths of one round: the explicit paths, then each
/// glob pattern's matches.
pub open spec fn candidates_spec(
    fs: crate::fsview::FsView,
    entries: Seq<Seq<char>>,
    globs: Seq<Seq<char>>,
    project: Seq<char>,
) -> Seq<Seq<char>>
    decreases globs.len(),
{
    if globs.len() == 0 {
        entries
    } else {
        candidates_spec(fs, entries, globs.drop_last(), project) + glob_hits_from(
            fs,
            glob_full_spec(project, globs.last()),
            0,
        )
    }
}

/// The candidates of one round, from the call's own arguments.
pub open spec fn round_candidates(
    fs: crate::fsview::FsView,
    entry_paths: Vec<String>,
    entry_globs: Option<&Vec<String>>,
    project: Seq<char>,
) -> Seq<Seq<char>> {
    candidates_spec(
        fs,
        entry_paths.deep_view(),
        match entry_globs {
            Some(g) => g.deep_view(),
            None => Seq::empty(),
        },
        project,
    )
}

/// A candidate the round may leave untracked: its extension names no
/// statement family, so ingestion refuses it without recording anything.
pub open spec fn skippable(opts: Option<MakeEntriesOptions>, c: Seq<char>) -> bool {
    ext_spec(c) is Some && !is_module_path(opts, c)
}

/// The candidates the initial store does not track, in candidate order.
pub open spec fn untracked_candidates(
    m: Map<Seq<char>, Seq<Seq<char>>>,
    cands: Seq<Seq<char>>,
    i: nat,
) -> Seq<Seq<char>>
    decreases cands.len() - i,
{
    if i >= cands.len() {
        Seq::empty()
    } else if m.contains_key(cands[i as int]) {
        untracked_candidates(m, cands, i + 1)
    } else {
        seq![cands[i as int]] + untracked_candidates(m, cands, i + 1)
    }
}

/// The ingestion of each untracked candidate in turn, from position `i` on:
/// the grown store, and the first fatal condition where one arose.
pub open spec fn expand_spec(
    fs: crate::fsview::FsView,
    opts: Option<MakeEntriesOptions>,
    project: Seq<char>,
    m: Map<Seq<char>, Seq<Seq<char>>>,
    kept: Seq<Seq<char>>,
    i: nat,
    fuel: nat,
) -> (Map<Seq<char>, Seq<Seq<char>>>, Option<ErrModel>)
    decreases kept.len() - i,
{
    if i >= kept.len() {
        (m, None)
    } else {
        let step = ingest_spec(fs, opts, project, m, kept[i as int], fuel);
        match step.1 {
            Err(e) => (step.0, Some(e)),
            Ok(_) => expand_spec(fs, opts, project, step.0, kept, i + 1, fuel),
        }
    }
}

/// The new entries of a round: the kept candidates the store now tracks, in
/// candidate order, each with its recorded list.
pub open spec fn tracked_items(
    m: Map<Seq<char>, Seq<Seq<char>>>,
    kept: Seq<Seq<char>>,
    i: nat,
) -> Seq<(Seq<char>, Seq<Seq<char>>)>
    decreases kept.len() - i,
{
    if i >= kept.len() {
        Seq::empty()
    } else if m.contains_key(kept[i as int]) {
        seq![(kept[i as int], m[kept[i as int]])] + tracked_items(m, kept, i + 1)
    } else {
        tracked_items(m, kept, i + 1)
    }
}

/// Untracked candidates come from the candidate list and are untracked.
pub proof fn lemma_untracked_elems(
    m: Map<Seq<char>, Seq<Seq<char>>>,
    cands: Seq<Seq<char>>,
    i: nat,
)
    ensures
        forall|t: int|
            0 <= t < untracked_candidates(m, cands, i).len() ==> cands.contains(
                #[trigger] untracked_candidates(m, cands, i)[t],
            ) && !m.contains_key(untracked_candidates(m, cands, i)[t]),
    decreases cands.len() - i,
{
    if i < cands.len() {
        lemma_untracked_elems(m, cands, i + 1);
        let cur = untracked_candidates(m, cands, i);
        let rest = untracked_candidates(m, cands, i + 1);
        if !m.contains_key(cands[i as int]) {
            assert forall|t: int|
                0 <= t < cur.len() implies cands.contains(#[trigger] cur[t]) && !m.contains_key(
                cur[t],
            ) by {
                if t == 0 {
                    assert(cur[t] == cands[i as int]);
                } else {
                    assert(cur[t] == rest[t - 1]);
                }
            }
        }
    }
}

/// Ingesting files no statement family covers changes nothing and never
/// fails.
pub proof fn lemma_expand_skippable(
    fs: crate::fsview::FsView,
    opts: Option<MakeEntriesOptions>,
    project: Seq<char>,
    m: Map<Seq<char>, Seq<Seq<char>>>,
    kept: Seq<Seq<char>>,
    i: nat,
    fuel: nat,
)
    requires
        forall|j: int| i <= j < kept.len() ==> skippable(opts, #[trigger] kept[j]),
    ensures
        expand_spec(fs, opts, project, m, kept, i, fuel).0 == m,
        expand_spec(fs, opts, project, m, kept, i, fuel).1 is None,
    decreases kept.len() - i,
{
    if i < kept.len() {
        assert(skippable(opts, kept[i as int]));
        let step = ingest_spec(fs, opts, project, m, kept[i as int], fuel);
        assert(step.0 == m && step.1 is Ok);
        lemma_expand_skippable(fs, opts, project, m, kept, i + 1, fuel);
    }
}

/// Whether every glob pattern of the round compiles, in its full form.
pub open spec fn patterns_ok(entry_globs: Option<&Vec<String>>, project: Seq<char>) -> bool {
    match entry_globs {
        Some(g) => forall|i: int|
            0 <= i < g.deep_view().len() ==> glob_pat_ok(
                #[trigger] glob_full_spec(project, g.deep_view()[i]),
            ),
        None => true,
    }
}

/// Expands the entry paths and glob patterns against the snapshot and
/// ingests every candidate the store does not track yet.  The returned items
/// are the newly tracked candidates, in candidate order, each carrying its
/// recorded dependency list.  A round whose candidates are all tracked
/// already or all skippable changes nothing and returns no items.
#[verifier::rlimit(60)]
pub fn make_missing_entries(
    fs: &crate::fsview::FsView,
    entry_paths: Vec<String>,
    entry_globs: Option<&Vec<String>>,
    project_path: &str,
    store: &mut crate::store::Store,
    opts: &Option<MakeEntriesOptions>,
) -> (r: Result<Vec<crate::store::FileItem>, WatchError>)
    requires
        crate::fsview::fs_wf(*fs),
        deps_closed(*opts, old(store)@),
        deps_nodup(old(store)@),
        fs.files@.len() < 0xffff_ffff_ffff_ffff,
    ensures
        store_frame(old(store)@, final(store)@),
        keys_from_fs(*fs, old(store)@, final(store)@),
        new_keys_module(*opts, old(store)@, final(store)@),
        deps_closed(*opts, final(store)@),
        deps_nodup(final(store)@),
        r matches Ok(items) ==> forall|j: int|
            0 <= j < round_candidates(*fs, entry_paths, entry_globs, project_path@).len()
                ==> final(store)@.contains_key(
                #[trigger] round_candidates(*fs, entry_paths, entry_globs, project_path@)[j],
            ) || skippable(*opts, round_candidates(*fs, entry_paths, entry_globs, project_path@)[j]),
        r matches Ok(items) ==> forall|i: int|
            0 <= i < items@.len() ==> {
                &&& final(store)@.contains_key(#[trigger] items@[i].path@)
                &&& items@[i].deps.deep_view() == final(store)@[items@[i].path@]
                &&& !old(store)@.contains_key(items@[i].path@)
            },
        r matches Ok(items) ==> ((forall|j: int|
            0 <= j < round_candidates(*fs, entry_paths, entry_globs, project_path@).len()
                ==> old(store)@.contains_key(
                #[trigger] round_candidates(*fs, entry_paths, entry_globs, project_path@)[j],
            ) || skippable(
                *opts,
                round_candidates(*fs, entry_paths, entry_globs, project_path@)[j],
            )) ==> final(store)@ == old(store)@ && items@.len() == 0),
        patterns_ok(entry_globs, project_path@) ==> ({
            let cands = round_candidates(*fs, entry_paths, entry_globs, project_path@);
            let kept = untracked_candidates(old(store)@, cands, 0);
            let ex = expand_spec(
                *fs,
                *opts,
                project_path@,
                old(store)@,
                kept,
                0,
                fs.files@.len() + 1,
            );
            match r {
                Ok(items) => ex.1 is None && final(store)@ == ex.0 && crate::changes::items_model(
                    items@,
                ) == tracked_items(final(store)@, kept, 0),
                Err(e) => ex.1 matches Some(me) && me == err_model(e) && final(store)@ == ex.0,
            }
        }),
        !patterns_ok(entry_globs, project_path@) ==> final(store)@ == old(store)@ && (match r {
            Ok(_) => false,
            Err(e) => e matches WatchError::BadPattern(_),
        }),
{
    let ghost m0 = store@;
    let ghost spec_globs: Seq<Seq<char>> = match entry_globs {
        Some(g) => g.deep_view(),
        None => Seq::empty(),
    };
    let ghost cands = round_candidates(*fs, entry_paths, entry_globs, project_path@);
    let mut paths = entry_paths;
    match entry_globs {
        Some(globs) => {
            let mut gi: usize = 0;
            proof {
                assert(spec_globs.take(0) =~= Seq::<Seq<char>>::empty());
                assert(candidates_spec(*fs, entry_paths.deep_view(), spec_globs.take(0), project_path@)
                    =~= entry_paths.deep_view());
            }
            while gi < globs.len()
                invariant
                    crate::fsview::fs_wf(*fs),
                    gi <= globs@.len(),
                    store@ == old(store)@,
                    deps_closed(*opts, old(store)@),
                    deps_nodup(old(store)@),
                    spec_globs == globs.deep_view(),
                    spec_globs.len() == globs@.len(),
                    entry_globs matches Some(gv) && gv.deep_view() == spec_globs,
                    forall|j: int|
                        0 <= j < gi ==> glob_pat_ok(
                            #[trigger] glob_full_spec(project_path@, spec_globs[j]),
                        ),
                    paths.deep_view() == candidates_spec(
                        *fs,
                        entry_paths.deep_view(),
                        spec_globs.take(gi as int),
                        project_path@,
                    ),
                decreases globs@.len() - gi,
            {
                let g = &globs[gi];
                let rooted = g.as_str().unicode_len() > 0 && g.as_str().get_char(0) == '/';
                let full = if rooted {
                    g.clone()
                } else {
                    crate::fsview::join_under(project_path, g.as_str())
                };
                proof {
                    assert(full@ == glob_full_spec(project_path@, spec_globs[gi as int]));
                }
                // a pattern that does not compile stops the round before any
                // file is looked at, whatever the snapshot holds
                match glob_match(full.as_str(), "") {
                    Some(_) => {},
                    None => {
                        proof {
                            assert(!glob_pat_ok(glob_full_spec(
                                project_path@,
                                spec_globs[gi as int],
                            )));
                            assert(!patterns_ok(entry_globs, project_path@));
                        }
                        return Err(WatchError::BadPattern(full));
                    },
                }
                let mut fi: usize = 0;
                while fi < fs.files.len()
                    invariant
                        crate::fsview::fs_wf(*fs),
                        fi <= fs.files@.len(),
                        store@ == old(store)@,
                        deps_closed(*opts, old(store)@),
                        deps_nodup(old(store)@),
                        glob_pat_ok(full@),
                        paths.deep_view() + glob_hits_from(*fs, full@, fi as nat)
                            =~= candidates_spec(
                            *fs,
                            entry_paths.deep_view(),
                            spec_globs.take(gi as int),
                            project_path@,
                        ) + glob_hits_from(*fs, full@, 0),
                    decreases fs.files@.len() - fi,
                {
                    match glob_match(full.as_str(), fs.files[fi].path.as_str()) {
                        Some(true) => {
                            let ghost prev = paths.deep_view();
                            paths.push(fs.files[fi].path.clone());
                            proof {
                                assert(paths.deep_view() =~= prev.push(
                                    fs.files@[fi as int].path@,
                                ));
                                assert(prev.push(fs.files@[fi as int].path@) + glob_hits_from(
                                    *fs,
                                    full@,
                                    fi as nat + 1,
                                ) =~= prev + glob_hits_from(*fs, full@, fi as nat));
                            }
                        },
                        Some(false) => {
                        },
                        None => {
                            proof {
                                assert(false);
                            }
                            return Err(WatchError::BadPattern(full));
                        },
                    }
                    fi = fi + 1;
                }
                proof {
                    assert(glob_hits_from(*fs, full@, fs.files@.len()) =~= Seq::<Seq<char>>::empty());
                    assert(paths.deep_view() =~= candidates_spec(
                        *fs,
                        entry_paths.deep_view(),
                        spec_globs.take(gi as int),
                        project_path@,
                    ) + glob_hits_from(*fs, full@, 0));
                    assert(spec_globs.take(gi as int + 1).drop_last() =~= spec_globs.take(
                        gi as int,
                    ));
                    assert(spec_globs.take(gi as int + 1).last() == spec_globs[gi as int]);
                }
                gi = gi + 1;
            }
            proof {
                assert(spec_globs.take(globs@.len() as int) =~= spec_globs);
                assert(patterns_ok(entry_globs, project_path@));
            }
        },
        None => {
            proof {
                assert(cands == entry_paths.deep_view());
                assert(patterns_ok(entry_globs, project_path@));
            }
        },
    }
    proof {
        assert(paths.deep_view() == cands);
    }
    // keep the candidates the store does not track yet
    let mut kept: Vec<String> = Vec::new();
    let mut pi: usize = 0;
    while pi < paths.len()
        invariant
            pi <= paths@.len(),
            m0 == old(store)@,
            store@ == m0,
            paths.deep_view() == cands,
            kept.deep_view() + untracked_candidates(m0, cands, pi as nat)
                == untracked_candidates(m0, cands, 0),
            forall|j: int|
                0 <= j < pi ==> m0.contains_key(#[trigger] paths.deep_view()[j])
                    || kept.deep_view().contains(paths.deep_view()[j]),
            forall|j: int|
                0 <= j < kept@.len() ==> !m0.contains_key(#[trigger] kept.deep_view()[j])
                    && paths.deep_view().contains(kept.deep_view()[j]),
        decreases paths@.len() - pi,
    {
        if !store.contains_key(paths[pi].as_str()) {
            let ghost prevk = kept.deep_view();
            kept.push(paths[pi].clone());
            proof {
                assert(kept.deep_view() =~= prevk.push(paths.deep_view()[pi as int]));
                assert(prevk.push(cands[pi as int]) + untracked_candidates(
                    m0,
                    cands,
                    pi as nat + 1,
                ) =~= prevk + (seq![cands[pi as int]] + untracked_candidates(
                    m0,
                    cands,
                    pi as nat + 1,
                )));
                assert(kept.deep_view().contains(paths.deep_view()[pi as int])) by {
                    assert(kept.deep_view()[kept.deep_view().len() - 1] == paths.deep_view()[
                        pi as int
                    ]);
                }
                assert forall|x: Seq<char>| prevk.contains(x) implies kept.deep_view().contains(
                    x,
                ) by {
                    let w = choose|w: int| 0 <= w < prevk.len() && prevk[w] == x;
                    assert(kept.deep_view()[w] == x);
                }
            }
        }
        pi = pi + 1;
    }
    proof {
        assert(untracked_candidates(m0, cands, paths@.len() as nat) =~= Seq::<Seq<char>>::empty());
        assert(kept.deep_view() + Seq::<Seq<char>>::empty() =~= kept.deep_view());
    }
    let ghost keptv = kept.deep_view();
    // ingest what is new
    let fuel: u64 = (fs.files.len() as u64) + 1;
    let mut ki: usize = 0;
    while ki < kept.len()
        invariant
            crate::fsview::fs_wf(*fs),
            ki <= kept@.len(),
            m0 == old(store)@,
            fuel == fs.files@.len() + 1,
            keptv == kept.deep_view(),
            keptv == untracked_candidates(m0, cands, 0),
            patterns_ok(entry_globs, project_path@),
            cands == round_candidates(*fs, entry_paths, entry_globs, project_path@),
            expand_spec(*fs, *opts, project_path@, m0, keptv, 0, fs.files@.len() + 1)
                == expand_spec(*fs, *opts, project_path@, store@, keptv, ki as nat, fs.files@.len() + 1),
            store_frame(m0, store@),
            keys_from_fs(*fs, m0, store@),
            new_keys_module(*opts, m0, store@),
            deps_closed(*opts, store@),
            deps_nodup(store@),
            forall|j: int|
                0 <= j < ki ==> store@.contains_key(#[trigger] kept.deep_view()[j]) || skippable(
                    *opts,
                    kept.deep_view()[j],
                ),
            forall|j: int| 0 <= j < kept@.len() ==> !m0.contains_key(#[trigger] kept.deep_view()[j]),
            (forall|j: int| 0 <= j < kept@.len() ==> skippable(*opts, #[trigger] kept.deep_view()[j]))
                ==> store@ == m0,
        decreases kept@.len() - ki,
    {
        proof {
            lemma_untracked_bound(*fs, store@);
        }
        let ghost pre = store@;
        proof {
            assert(keptv[ki as int] == kept@[ki as int]@);
        }
        match ingest_at(fs, kept[ki].as_str(), project_path, store, opts, fuel) {
            Ok(_) => {
                proof {
                    assert(expand_spec(
                        *fs,
                        *opts,
                        project_path@,
                        pre,
                        keptv,
                        ki as nat,
                        fs.files@.len() + 1,
                    ) == expand_spec(
                        *fs,
                        *opts,
                        project_path@,
                        store@,
                        keptv,
                        ki as nat + 1,
                        fs.files@.len() + 1,
                    ));
                }
            },
            Err(e) => {
                proof {
                    assert(expand_spec(
                        *fs,
                        *opts,
                        project_path@,
                        pre,
                        keptv,
                        ki as nat,
                        fs.files@.len() + 1,
                    ) == (store@, Some(err_model(e))));
                }
                return Err(e);
            },
        }
        proof {
            if forall|j: int|
                0 <= j < kept@.len() ==> skippable(*opts, #[trigger] kept.deep_view()[j]) {
                assert(skippable(*opts, kept.deep_view()[ki as int]));
                assert(pre == m0);
                assert(!pre.contains_key(kept.deep_view()[ki as int]));
                assert(store@ == m0);
            }
        }
        ki = ki + 1;
    }
    // the new entries are the kept candidates the store now tracks
    let mut items: Vec<crate::store::FileItem> = Vec::new();
    let mut ei: usize = 0;
    while ei < kept.len()
        invariant
            ei <= kept@.len(),
            m0 == old(store)@,
            keptv == kept.deep_view(),
            crate::changes::items_model(items@) + tracked_items(store@, keptv, ei as nat)
                == tracked_items(store@, keptv, 0),
            store_frame(m0, store@),
            forall|j: int| 0 <= j < kept@.len() ==> !m0.contains_key(#[trigger] kept.deep_view()[j]),
            forall|i: int|
                0 <= i < items@.len() ==> {
                    &&& store@.contains_key(#[trigger] items@[i].path@)
                    &&& items@[i].deps.deep_view() == store@[items@[i].path@]
                    &&& !m0.contains_key(items@[i].path@)
                },
            store@ == m0 ==> items@.len() == 0,
        decreases kept@.len() - ei,
    {
        let ghost prev_model = crate::changes::items_model(items@);
        match store.get(kept[ei].as_str()) {
            Some(deps) => {
                let item = crate::store::FileItem { path: kept[ei].clone(), deps };
                items.push(item);
                proof {
                    assert(keptv[ei as int] == kept@[ei as int]@);
                    assert(store@.contains_key(kept.deep_view()[ei as int]));
                    assert(!m0.contains_key(kept.deep_view()[ei as int]));
                    assert forall|x: int|
                        0 <= x < crate::changes::items_model(items@).len() implies
                        crate::changes::items_model(items@)[x] == prev_model.push(
                        (keptv[ei as int], store@[keptv[ei as int]]),
                    )[x] by {
                        if x < prev_model.len() {
                            assert(items@[x] == items@.drop_last()[x]);
                        } else {
                            assert(items@[x].path@ == keptv[ei as int]);
                            assert(items@[x].deps.deep_view() == store@[keptv[ei as int]]);
                        }
                    }
                    assert(crate::changes::items_model(items@) =~= prev_model.push(
                        (keptv[ei as int], store@[keptv[ei as int]]),
                    ));
                    assert(prev_model.push((keptv[ei as int], store@[keptv[ei as int]]))
                        + tracked_items(store@, keptv, ei as nat + 1) =~= prev_model + (seq![
                        (keptv[ei as int], store@[keptv[ei as int]]),
                    ] + tracked_items(store@, keptv, ei as nat + 1)));
                }
            },
            None => {
                proof {
                    assert(keptv[ei as int] == kept@[ei as int]@);
                }
            },
        }
        ei = ei + 1;
    }
    proof {
        assert(tracked_items(store@, keptv, kept@.len() as nat) =~= Seq::<
            (Seq<char>, Seq<Seq<char>>),
        >::empty());
        assert(crate::changes::items_model(items@) + Seq::<
            (Seq<char>, Seq<Seq<char>>),
        >::empty() =~= crate::changes::items_model(items@));
        assert(expand_spec(
            *fs,
            *opts,
            project_path@,
            store@,
            keptv,
            kept@.len() as nat,
            fs.files@.len() + 1,
        ) == (store@, None::<ErrModel>));
        if forall|j: int|
            0 <= j < cands.len() ==> m0.contains_key(#[trigger] cands[j]) || skippable(
                *opts,
                cands[j],
            ) {
            assert forall|j: int| 0 <= j < kept@.len() implies skippable(
                *opts,
                #[trigger] kept.deep_view()[j],
            ) by {
                let c = kept.deep_view()[j];
                let w = choose|w: int| 0 <= w < cands.len() && cands[w] == c;
                assert(m0.contains_key(cands[w]) || skippable(*opts, cands[w]));
            }
        }
        assert forall|j: int|
            0 <= j < cands.len() implies store@.contains_key(#[trigger] cands[j]) || skippable(
            *opts,
            cands[j],
        ) by {
            if !m0.contains_key(cands[j]) {
                assert(kept.deep_view().contains(cands[j]));
                let w = choose|w: int|
                    0 <= w < kept.deep_view().len() && kept.deep_view()[w] == cands[j];
                assert(store@.contains_key(kept.deep_view()[w]) || skippable(
                    *opts,
                    kept.deep_view()[w],
                ));
            }
        }
    }
    Ok(items)
}

/// Builds a fresh store from the entry paths and glob patterns.
pub fn make_entries(
    fs: &crate::fsview::FsView,
    entry_paths: Vec<String>,
    entry_globs: Option<&Vec<String>>,
    project_path: &str,
    opts: &Option<MakeEntriesOptions>,
) -> (r: Result<(crate::store::Store, Vec<crate::store::FileItem>), WatchError>)
    requires
        crate::fsview::fs_wf(*fs),
        fs.files@.len() < 0xffff_ffff_ffff_ffff,
    ensures
        (match r {
            Ok(p) => {
                &&& deps_closed(*opts, p.0@)
                &&& deps_nodup(p.0@)
                &&& keys_from_fs(*fs, crate::store::empty_store_map(), p.0@)
                &&& forall|i: int|
                    0 <= i < p.1@.len() ==> p.0@.contains_key(#[trigger] p.1@[i].path@)
                        && p.1@[i].deps.deep_view() == p.0@[p.1@[i].path@]
            },
            Err(_) => true,
        }),
{
    let mut store = crate::store::Store::new();
    match make_missing_entries(fs, entry_paths, entry_globs, project_path, &mut store, opts) {
        Ok(items) => Ok((store, items)),
        Err(e) => Err(e),
    }
}

} // verus!

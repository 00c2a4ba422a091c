//! The filesystem as a value.
//!
//! A [`FsView`] is the snapshot of files a round of work runs against: each
//! entry a path and the file's text.  The library never touches a disk; the
//! caller builds the snapshot and hands it in.  Directories exist implicitly:
//! a path is a directory when some file lies under it, and directory searches
//! run over the snapshot in its own order.

use vstd::prelude::*;

use crate::strutil::{chars_of, str_eq, str_has_prefix, has_prefix};

verus! {

/// One file of the snapshot.
pub struct FsFile {
    pub path: String,
    pub content: String,
}

/// A snapshot of the files a round works on.
pub struct FsView {
    pub files: Vec<FsFile>,
}

/// The paths of the snapshot, in snapshot order.
pub open spec fn fs_paths(fs: FsView) -> Seq<Seq<char>> {
    fs.files@.map_values(|f: FsFile| f.path@)
}

/// A well-formed snapshot: no path occurs twice.
pub open spec fn fs_wf(fs: FsView) -> bool {
    forall|i: int, j: int|
        0 <= i < j < fs.files@.len() ==> #[trigger] fs.files@[i].path@ != #[trigger] fs.files@[j].path@
}

/// Whether the snapshot holds a file at `p`.
pub open spec fn fs_has(fs: FsView, p: Seq<char>) -> bool {
    exists|i: int| 0 <= i < fs.files@.len() && #[trigger] fs.files@[i].path@ == p
}

/// The text of the file at `p`.
pub open spec fn fs_content(fs: FsView, p: Seq<char>) -> Seq<char> {
    let i = choose|i: int| 0 <= i < fs.files@.len() && #[trigger] fs.files@[i].path@ == p;
    fs.files@[i].content@
}

impl FsView {
    /// An empty snapshot.
    pub fn new() -> (r: FsView)
        ensures
            r.files@.len() == 0,
            fs_wf(r),
    {
        FsView { files: Vec::new() }
    }

    /// Appends a file; the caller keeps paths unique.
    pub fn push_file(&mut self, path: String, content: String)
        requires
            fs_wf(*old(self)),
            !fs_has(*old(self), path@),
        ensures
            fs_wf(*final(self)),
            final(self).files@ == old(self).files@.push((FsFile { path, content })),
    {
        self.files.push(FsFile { path, content });
    }
}

/// Reads the file at `path`, if the snapshot holds one.
pub fn fs_read(fs: &FsView, path: &str) -> (r: Option<String>)
    requires
        fs_wf(*fs),
    ensures
        match r {
            Some(c) => fs_has(*fs, path@) && c@ == fs_content(*fs, path@),
            None => !fs_has(*fs, path@),
        },
{
    let n = fs.files.len();
    let mut i: usize = 0;
    while i < n
        invariant
            fs_wf(*fs),
            n == fs.files@.len(),
            i <= n,
            forall|j: int| 0 <= j < i ==> #[trigger] fs.files@[j].path@ != path@,
        decreases n - i,
    {
        if str_eq(fs.files[i].path.as_str(), path) {
            let c = fs.files[i].content.clone();
            proof {
                assert(fs_has(*fs, path@));
                assert forall|w: int|
                    0 <= w < fs.files@.len() && #[trigger] fs.files@[w].path@ == path@ implies w
                    == i as int by {
                    if w < i as int {
                        assert(fs.files@[w].path@ != fs.files@[i as int].path@);
                    } else if w > i as int {
                        assert(fs.files@[i as int].path@ != fs.files@[w].path@);
                    }
                }
                assert(fs_content(*fs, path@) == fs.files@[i as int].content@);
            }
            return Some(c);
        }
        i = i + 1;
    }
    None
}

/// Whether the snapshot holds a file at `path`.
pub fn fs_exists(fs: &FsView, path: &str) -> (r: bool)
    ensures
        r == fs_has(*fs, path@),
{
    let n = fs.files.len();
    let mut i: usize = 0;
    while i < n
        invariant
            n == fs.files@.len(),
            i <= n,
            forall|j: int| 0 <= j < i ==> #[trigger] fs.files@[j].path@ != path@,
        decreases n - i,
    {
        if str_eq(fs.files[i].path.as_str(), path) {
            return true;
        }
        i = i + 1;
    }
    false
}

/// The last position of `c` in `p`, or `-1`.
pub open spec fn last_pos(p: Seq<char>, c: char) -> int
    decreases p.len(),
{
    if p.len() == 0 {
        -1
    } else if p.last() == c {
        p.len() - 1
    } else {
        last_pos(p.drop_last(), c)
    }
}

/// Where `last_pos` points: at the last occurrence, or before the start.
pub proof fn lemma_last_pos(p: Seq<char>, c: char)
    ensures
        -1 <= last_pos(p, c) < p.len(),
        last_pos(p, c) >= 0 ==> p[last_pos(p, c)] == c,
        forall|k: int| last_pos(p, c) < k < p.len() ==> p[k] != c,
    decreases p.len(),
{
    if p.len() > 0 && p.last() != c {
        lemma_last_pos(p.drop_last(), c);
        assert(forall|k: int| 0 <= k < p.len() - 1 ==> p[k] == p.drop_last()[k]);
    }
}

/// The directory holding `p`: up to the last separator, the root when the
/// separator leads, nothing when the path has none.
pub open spec fn parent_spec(p: Seq<char>) -> Option<Seq<char>> {
    let i = last_pos(p, '/');
    if i < 0 {
        None
    } else if i == 0 {
        Some(seq!['/'])
    } else {
        Some(p.take(i))
    }
}

/// The name after the last separator.
pub open spec fn base_name(p: Seq<char>) -> Seq<char> {
    p.skip(last_pos(p, '/') + 1)
}

/// The extension of a file name: what follows the last dot, none when the
/// only dot leads the name or there is none.
pub open spec fn name_ext(name: Seq<char>) -> Option<Seq<char>> {
    let d = last_pos(name, '.');
    if d <= 0 {
        None
    } else {
        Some(name.skip(d + 1))
    }
}

/// The stem of a file name: what precedes the last dot, or the whole name.
pub open spec fn name_stem(name: Seq<char>) -> Seq<char> {
    let d = last_pos(name, '.');
    if d <= 0 {
        name
    } else {
        name.take(d)
    }
}

/// The extension of the file a path points at.
pub open spec fn ext_spec(p: Seq<char>) -> Option<Seq<char>> {
    name_ext(base_name(p))
}

/// Finds the last occurrence of `c`.
fn find_last(chars: &Vec<char>, c: char) -> (r: Option<usize>)
    ensures
        match r {
            Some(i) => last_pos(chars@, c) == i,
            None => last_pos(chars@, c) == -1,
        },
{
    let n = chars.len();
    let mut i = n;
    proof {
        assert(chars@.take(n as int) =~= chars@);
    }
    while i > 0 && chars[i - 1] != c
        invariant
            i <= n,
            n == chars@.len(),
            last_pos(chars@, c) == last_pos(chars@.take(i as int), c),
        decreases i,
    {
        proof {
            assert(chars@.take(i as int).last() == chars@[i - 1]);
            assert(chars@.take(i as int).drop_last() =~= chars@.take(i as int - 1));
        }
        i = i - 1;
    }
    if i == 0 {
        proof {
            assert(chars@.take(0).len() == 0);
        }
        None
    } else {
        proof {
            assert(chars@.take(i as int).last() == chars@[i - 1]);
        }
        Some(i - 1)
    }
}

/// The directory holding `path`, where the path has one.
pub fn parent_dir(path: &str) -> (r: Option<String>)
    ensures
        match r {
            Some(d) => parent_spec(path@) == Some(d@),
            None => parent_spec(path@) is None,
        },
{
    let chars = chars_of(path);
    proof {
        lemma_last_pos(path@, '/');
    }
    match find_last(&chars, '/') {
        Some(i) => {
            if i == 0 {
                let root = String::from_str("/");
                proof {
                    reveal_strlit("/");
                    assert(root@ =~= seq!['/']);
                }
                Some(root)
            } else {
                Some(path.substring_char(0, i).to_owned())
            }
        },
        None => None,
    }
}

/// The name after the last separator of `path`.
pub fn file_name(path: &str) -> (r: String)
    ensures
        r@ == base_name(path@),
{
    let chars = chars_of(path);
    proof {
        lemma_last_pos(path@, '/');
    }
    match find_last(&chars, '/') {
        Some(i) => path.substring_char(i + 1, chars.len()).to_owned(),
        None => {
            proof {
                assert(path@.skip(0) =~= path@);
            }
            path.to_owned()
        },
    }
}

/// The extension of a bare file name.
pub fn ext_of_name(name: &str) -> (r: Option<String>)
    ensures
        match r {
            Some(e) => name_ext(name@) == Some(e@),
            None => name_ext(name@) is None,
        },
{
    let chars = chars_of(name);
    proof {
        lemma_last_pos(name@, '.');
    }
    match find_last(&chars, '.') {
        Some(d) => {
            if d == 0 {
                None
            } else {
                Some(name.substring_char(d + 1, chars.len()).to_owned())
            }
        },
        None => None,
    }
}

/// The stem of a bare file name.
pub fn stem_of_name(name: &str) -> (r: String)
    ensures
        r@ == name_stem(name@),
{
    let chars = chars_of(name);
    proof {
        lemma_last_pos(name@, '.');
    }
    match find_last(&chars, '.') {
        Some(d) => {
            if d == 0 {
                name.to_owned()
            } else {
                name.substring_char(0, d).to_owned()
            }
        },
        None => name.to_owned(),
    }
}

/// The extension of the file a path points at.
pub fn extension(path: &str) -> (r: Option<String>)
    ensures
        match r {
            Some(e) => ext_spec(path@) == Some(e@),
            None => ext_spec(path@) is None,
        },
{
    let name = file_name(path);
    ext_of_name(name.as_str())
}

/// A path joined under a directory and cleaned; a rooted right side stands
/// alone, as the platform's join has it.
pub open spec fn join_spec(dir: Seq<char>, rel: Seq<char>) -> Seq<char> {
    if rel.len() > 0 && rel[0] == '/' {
        crate::path_clean::clean_spec(rel)
    } else {
        crate::path_clean::clean_spec(dir + seq!['/'] + rel)
    }
}

/// Joins `rel` under `dir` and cleans the result.
pub fn join_under(dir: &str, rel: &str) -> (r: String)
    ensures
        r@ == join_spec(dir@, rel@),
{
    let rooted = rel.unicode_len() > 0 && rel.get_char(0) == '/';
    if rooted {
        crate::path_clean::clean(rel)
    } else {
        let mut s = dir.to_owned();
        s.append("/");
        s.append(rel);
        proof {
            reveal_strlit("/");
            assert("/"@ =~= seq!['/']);
        }
        crate::path_clean::clean(s.as_str())
    }
}

/// A directory path with its trailing separator.
pub open spec fn dir_sep(d: Seq<char>) -> Seq<char> {
    if d.len() > 0 && d.last() == '/' {
        d
    } else {
        d + seq!['/']
    }
}

/// Whether some file of the snapshot lies under the directory `d`.
pub open spec fn is_dir_spec(fs: FsView, d: Seq<char>) -> bool {
    exists|i: int|
        0 <= i < fs.files@.len() && has_prefix(#[trigger] fs.files@[i].path@, dir_sep(d))
            && fs.files@[i].path@.len() > dir_sep(d).len()
}

/// Whether the snapshot holds `p` itself or anything under it.
pub open spec fn has_entry_spec(fs: FsView, p: Seq<char>) -> bool {
    fs_has(fs, p) || is_dir_spec(fs, p)
}

/// The name of `q` as an immediate child of the directory given by its
/// separator-ended form `ds`: the rest after `ds`, when that rest is a bare
/// name.
pub open spec fn child_name_given(q: Seq<char>, ds: Seq<char>) -> Option<Seq<char>> {
    if has_prefix(q, ds) && q.len() > ds.len() && (forall|k: int|
        ds.len() <= k < q.len() ==> q[k] != '/') {
        Some(q.skip(ds.len() as int))
    } else {
        None
    }
}

/// `dir` with its trailing separator, ready for child tests.
pub fn dir_sep_of(dir: &str) -> (r: String)
    ensures
        r@ == dir_sep(dir@),
{
    let n = dir.unicode_len();
    if n > 0 && dir.get_char(n - 1) == '/' {
        dir.to_owned()
    } else {
        let mut s = dir.to_owned();
        s.append("/");
        proof {
            reveal_strlit("/");
            assert("/"@ =~= seq!['/']);
        }
        s
    }
}

/// Reads `q` as an immediate child name under the separator-ended `ds`.
fn child_name(q: &str, ds: &str) -> (r: Option<String>)
    ensures
        match r {
            Some(n) => child_name_given(q@, ds@) == Some(n@),
            None => child_name_given(q@, ds@) is None,
        },
{
    if !str_has_prefix(q, ds) {
        return None;
    }
    let qc = chars_of(q);
    let m = ds.unicode_len();
    if qc.len() <= m {
        return None;
    }
    let mut k = m;
    while k < qc.len()
        invariant
            qc@ == q@,
            m == ds@.len(),
            m <= k <= qc@.len(),
            forall|j: int| m <= j < k ==> q@[j] != '/',
        decreases qc@.len() - k,
    {
        if qc[k] == '/' {
            return None;
        }
        k = k + 1;
    }
    Some(q.substring_char(m, qc.len()).to_owned())
}

/// Whether some file of the snapshot lies under the directory `dir`.
pub fn fs_is_dir(fs: &FsView, dir: &str) -> (r: bool)
    ensures
        r == is_dir_spec(*fs, dir@),
{
    let ds = dir_sep_of(dir);
    let n = fs.files.len();
    let mut i: usize = 0;
    while i < n
        invariant
            ds@ == dir_sep(dir@),
            n == fs.files@.len(),
            i <= n,
            forall|j: int|
                0 <= j < i ==> !(has_prefix(#[trigger] fs.files@[j].path@, dir_sep(dir@))
                    && fs.files@[j].path@.len() > dir_sep(dir@).len()),
        decreases n - i,
    {
        let q = &fs.files[i].path;
        if q.as_str().unicode_len() > ds.as_str().unicode_len() && str_has_prefix(
            q.as_str(),
            ds.as_str(),
        ) {
            return true;
        }
        i = i + 1;
    }
    false
}

/// Whether the snapshot holds `p` itself or anything under it.
pub fn fs_has_entry(fs: &FsView, p: &str) -> (r: bool)
    ensures
        r == has_entry_spec(*fs, p@),
{
    if fs_exists(fs, p) {
        true
    } else {
        fs_is_dir(fs, p)
    }
}

pub open spec fn kw_index() -> Seq<char> {
    seq!['i', 'n', 'd', 'e', 'x']
}

/// Whether the file at `q` answers an index search under `ds`: an immediate
/// child with an extension whose stem is `index`.
pub open spec fn index_candidate(q: Seq<char>, ds: Seq<char>) -> bool {
    match child_name_given(q, ds) {
        Some(n) => name_ext(n) is Some && name_stem(n) == kw_index(),
        None => false,
    }
}

/// The first index file under the directory whose separator-ended form is
/// `ds`, searching the snapshot from position `i` on.
pub open spec fn find_index_from(fs: FsView, ds: Seq<char>, i: nat) -> Option<Seq<char>>
    decreases fs.files@.len() - i,
{
    if i >= fs.files@.len() {
        None
    } else if index_candidate(fs.files@[i as int].path@, ds) {
        Some(fs.files@[i as int].path@)
    } else {
        find_index_from(fs, ds, i + 1)
    }
}

/// Whether the file at `q` answers a stem search under `ds`: an immediate
/// child with an extension whose stem is `stem`.
pub open spec fn stem_candidate(q: Seq<char>, ds: Seq<char>, stem: Seq<char>) -> bool {
    match child_name_given(q, ds) {
        Some(n) => name_ext(n) is Some && name_stem(n) == stem,
        None => false,
    }
}

/// The first file with the wanted stem under the directory whose
/// separator-ended form is `ds`, searching the snapshot from position `i`.
pub open spec fn find_stem_from(fs: FsView, ds: Seq<char>, stem: Seq<char>, i: nat) -> Option<
    Seq<char>,
>
    decreases fs.files@.len() - i,
{
    if i >= fs.files@.len() {
        None
    } else if stem_candidate(fs.files@[i as int].path@, ds, stem) {
        Some(fs.files@[i as int].path@)
    } else {
        find_stem_from(fs, ds, stem, i + 1)
    }
}

/// What directory-index completion returns on the snapshot: the first file
/// directly under `dir` whose stem is `index` and which has an extension.
pub open spec fn resolve_index_spec(fs: FsView, dir: Seq<char>) -> Option<Seq<char>> {
    find_index_from(fs, dir_sep(dir), 0)
}

/// Completes a directory path to the index file inside it.
pub fn resolve_index(fs: &FsView, dir: &str) -> (r: Option<String>)
    ensures
        match r {
            Some(p) => resolve_index_spec(*fs, dir@) == Some(p@),
            None => resolve_index_spec(*fs, dir@) is None,
        },
{
    let ds = dir_sep_of(dir);
    let idx = String::from_str("index");
    proof {
        reveal_strlit("index");
        assert(idx@ =~= kw_index());
    }
    let n = fs.files.len();
    let mut i: usize = 0;
    while i < n
        invariant
            ds@ == dir_sep(dir@),
            idx@ == kw_index(),
            n == fs.files@.len(),
            i <= n,
            find_index_from(*fs, dir_sep(dir@), 0) == find_index_from(*fs, dir_sep(dir@), i as nat),
        decreases n - i,
    {
        let q = &fs.files[i].path;
        if let Some(name) = child_name(q.as_str(), ds.as_str()) {
            let has_ext = match ext_of_name(name.as_str()) {
                Some(_) => true,
                None => false,
            };
            if has_ext {
                let stem = stem_of_name(name.as_str());
                if str_eq(stem.as_str(), idx.as_str()) {
                    return Some(q.clone());
                }
            }
        }
        i = i + 1;
    }
    None
}

/// What extension completion returns on the snapshot: the first file in the
/// holding directory whose stem matches the extensionless name and which has
/// an extension; nothing for a path without a holding directory.
pub open spec fn resolve_ext_spec(fs: FsView, p: Seq<char>) -> Option<Seq<char>> {
    match parent_spec(p) {
        Some(d) => find_stem_from(fs, dir_sep(d), name_stem(base_name(p)), 0),
        None => None,
    }
}

/// Completes an extensionless file path to the matching file beside it.
pub fn resolve_with_extension(fs: &FsView, path: &str) -> (r: Option<String>)
    ensures
        match r {
            Some(p) => resolve_ext_spec(*fs, path@) == Some(p@),
            None => resolve_ext_spec(*fs, path@) is None,
        },
{
    let dir = match parent_dir(path) {
        Some(d) => d,
        None => {
            return None;
        },
    };
    let ds = dir_sep_of(dir.as_str());
    let name = file_name(path);
    let want = stem_of_name(name.as_str());
    let n = fs.files.len();
    let mut i: usize = 0;
    while i < n
        invariant
            ds@ == dir_sep(parent_spec(path@)->Some_0),
            want@ == name_stem(base_name(path@)),
            parent_spec(path@) is Some,
            n == fs.files@.len(),
            i <= n,
            find_stem_from(*fs, ds@, want@, 0) == find_stem_from(*fs, ds@, want@, i as nat),
        decreases n - i,
    {
        let q = &fs.files[i].path;
        if let Some(name_i) = child_name(q.as_str(), ds.as_str()) {
            let has_ext = match ext_of_name(name_i.as_str()) {
                Some(_) => true,
                None => false,
            };
            if has_ext {
                let stem = stem_of_name(name_i.as_str());
                if str_eq(stem.as_str(), want.as_str()) {
                    return Some(q.clone());
                }
            }
        }
        i = i + 1;
    }
    None
}

} // verus!

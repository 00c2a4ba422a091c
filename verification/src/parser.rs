//! Lexical import scanner.
//!
//! `parse_deps` walks a source text character by character.  At each
//! position it tries, in order, the statement families that the parse
//! conditions allow: named, side-effect and re-export module imports,
//! `require(...)`, dynamic `import(...)`, and style-sheet `@import`
//! statements.  Where a family matches, its specifiers are collected and the
//! scan resumes after the matched text; otherwise the scan advances one
//! character.  A statement whose string literal never closes does not match.

use vstd::prelude::*;

use crate::strutil::chars_of;

verus! {

/// An import specifier together with the statement family that produced it.
#[derive(Debug, PartialEq, Eq, Clone)]
pub enum ImportDep {
    ESM(String),
    REQUIRE(String),
    CSS(String),
}

/// The statement family of a specifier, in specifications.
#[derive(PartialEq, Eq, Structural, Clone, Copy, Debug)]
pub enum ImportKind {
    Esm,
    Require,
    Css,
}

/// Which statement families the scanner runs.
#[derive(Clone, Copy)]
pub struct ParseConditions {
    pub esm: bool,
    pub require: bool,
    pub lazy_esm: bool,
    pub css: bool,
}

/// The family of a collected specifier.
pub open spec fn dep_kind(d: ImportDep) -> ImportKind {
    match d {
        ImportDep::ESM(_) => ImportKind::Esm,
        ImportDep::REQUIRE(_) => ImportKind::Require,
        ImportDep::CSS(_) => ImportKind::Css,
    }
}

/// The text of a collected specifier.
pub open spec fn dep_text(d: ImportDep) -> Seq<char> {
    match d {
        ImportDep::ESM(s) => s@,
        ImportDep::REQUIRE(s) => s@,
        ImportDep::CSS(s) => s@,
    }
}

/// The specifiers of a vector of deps, as (family, text) pairs.
pub open spec fn deps_model(v: Seq<ImportDep>) -> Seq<(ImportKind, Seq<char>)> {
    v.map_values(|d: ImportDep| (dep_kind(d), dep_text(d)))
}

/// Horizontal white space, as the statement grammar knows it.
pub open spec fn is_space(c: char) -> bool {
    c == ' ' || c == '\t'
}

/// A string literal delimiter; an opening delimiter of one kind may be
/// closed by the other.
pub open spec fn is_quote(c: char) -> bool {
    c == '"' || c == '\''
}

/// The first position at or after `from` holding a non-space character, or
/// the end of the text.
pub open spec fn skip_spaces(s: Seq<char>, from: nat) -> nat
    decreases s.len() - from,
{
    if from >= s.len() {
        s.len()
    } else if is_space(s[from as int]) {
        skip_spaces(s, from + 1)
    } else {
        from
    }
}

/// The first position at or after `from` holding a quote, or the end.
pub open spec fn find_quote(s: Seq<char>, from: nat) -> nat
    decreases s.len() - from,
{
    if from >= s.len() {
        s.len()
    } else if is_quote(s[from as int]) {
        from
    } else {
        find_quote(s, from + 1)
    }
}

/// Whether the text holds `pat` starting at position `i`.
pub open spec fn has_at(s: Seq<char>, i: nat, pat: Seq<char>) -> bool {
    i + pat.len() <= s.len() && s.subrange(i as int, i as int + pat.len() as int) == pat
}

/// The first position at or after `from` where `pat` occurs, or the end.
pub open spec fn find_sub(s: Seq<char>, from: nat, pat: Seq<char>) -> nat
    decreases s.len() - from,
{
    if from >= s.len() {
        s.len()
    } else if has_at(s, from, pat) {
        from
    } else {
        find_sub(s, from + 1, pat)
    }
}

/// A string literal opening at `q`: its text and the position after the
/// closing quote, or nothing when no quote follows before the end.
pub open spec fn lit_from(s: Seq<char>, q: nat) -> Option<(Seq<char>, nat)> {
    let e = find_quote(s, q + 1);
    if e < s.len() {
        Some((s.subrange(q as int + 1, e as int), e + 1))
    } else {
        None
    }
}

pub open spec fn kw_import() -> Seq<char> {
    seq!['i', 'm', 'p', 'o', 'r', 't']
}

pub open spec fn kw_export() -> Seq<char> {
    seq!['e', 'x', 'p', 'o', 'r', 't']
}

pub open spec fn kw_require() -> Seq<char> {
    seq!['r', 'e', 'q', 'u', 'i', 'r', 'e']
}

pub open spec fn kw_at_import() -> Seq<char> {
    seq!['@', 'i', 'm', 'p', 'o', 'r', 't']
}

pub open spec fn kw_from() -> Seq<char> {
    seq!['f', 'r', 'o', 'm']
}

pub open spec fn kw_url() -> Seq<char> {
    seq!['u', 'r', 'l']
}

/// The shared shape of named and re-export module statements after their
/// leading keyword and white space: any text up to `from`, white space, then
/// a string literal.
pub open spec fn from_clause_spec(s: Seq<char>, p2: nat) -> Option<(Seq<char>, nat)> {
    let f = find_sub(s, p2, kw_from());
    if f < s.len() {
        let p3 = skip_spaces(s, f + 4);
        if p3 > f + 4 && p3 < s.len() && is_quote(s[p3 as int]) {
            lit_from(s, p3)
        } else {
            None
        }
    } else {
        None
    }
}

/// A module import statement at `pos`: the keyword, at least one space,
/// then either a bare string literal or a `from` clause.
pub open spec fn esm_spec(s: Seq<char>, pos: nat) -> Option<(Seq<char>, nat)> {
    if has_at(s, pos, kw_import()) {
        let p = (pos + 6) as nat;
        let p2 = skip_spaces(s, p);
        if p2 == p {
            None
        } else if p2 < s.len() && is_quote(s[p2 as int]) {
            lit_from(s, p2)
        } else {
            from_clause_spec(s, p2)
        }
    } else {
        None
    }
}

/// A re-export statement at `pos`: like a named import with `export` as the
/// leading keyword; the bare-literal form does not apply.
pub open spec fn export_spec(s: Seq<char>, pos: nat) -> Option<(Seq<char>, nat)> {
    if has_at(s, pos, kw_export()) {
        let p = (pos + 6) as nat;
        let p2 = skip_spaces(s, p);
        if p2 == p {
            None
        } else {
            from_clause_spec(s, p2)
        }
    } else {
        None
    }
}

/// The shared shape of call-form statements after their keyword: optional
/// space, `(`, optional space, a literal, optional space, `)`.
pub open spec fn call_clause_spec(s: Seq<char>, p: nat) -> Option<(Seq<char>, nat)> {
    let p2 = skip_spaces(s, p);
    if p2 < s.len() && s[p2 as int] == '(' {
        let p3 = skip_spaces(s, p2 + 1);
        if p3 < s.len() && is_quote(s[p3 as int]) {
            match lit_from(s, p3) {
                Some((text, q)) => {
                    let p4 = skip_spaces(s, q);
                    if p4 < s.len() && s[p4 as int] == ')' {
                        Some((text, (p4 + 1) as nat))
                    } else {
                        None
                    }
                },
                None => None,
            }
        } else {
            None
        }
    } else {
        None
    }
}

/// A dynamic import statement at `pos`: `import`, then a call clause.
pub open spec fn lazy_esm_spec(s: Seq<char>, pos: nat) -> Option<(Seq<char>, nat)> {
    if has_at(s, pos, kw_import()) {
        call_clause_spec(s, (pos + 6) as nat)
    } else {
        None
    }
}

/// A `require` statement at `pos`.
pub open spec fn require_spec(s: Seq<char>, pos: nat) -> Option<(Seq<char>, nat)> {
    if has_at(s, pos, kw_require()) {
        call_clause_spec(s, (pos + 7) as nat)
    } else {
        None
    }
}

/// One operand of a style-sheet import: a bare string literal, or else
/// `url(` wrapping one, searched for from the operand's start.
pub open spec fn css_item_spec(s: Seq<char>, from: nat) -> Option<(Seq<char>, nat)> {
    let p = skip_spaces(s, from);
    if p < s.len() && is_quote(s[p as int]) {
        lit_from(s, p)
    } else {
        let u = find_sub(s, p, kw_url());
        if u < s.len() {
            let p2 = skip_spaces(s, u + 3);
            if p2 < s.len() && s[p2 as int] == '(' {
                let p3 = skip_spaces(s, p2 + 1);
                if p3 < s.len() && is_quote(s[p3 as int]) {
                    match lit_from(s, p3) {
                        Some((text, q)) => {
                            if q < s.len() && s[q as int] == ')' {
                                Some((text, (q + 1) as nat))
                            } else {
                                None
                            }
                        },
                        None => None,
                    }
                } else {
                    None
                }
            } else {
                None
            }
        } else {
            None
        }
    }
}

/// The operands after the first one: each introduced by a comma; a comma
/// whose operand does not parse ends the list before the comma.
pub open spec fn css_rest_spec(s: Seq<char>, from: nat) -> (Seq<Seq<char>>, nat)
    decreases s.len() - from,
{
    if from < s.len() && s[from as int] == ',' {
        match css_item_spec(s, from + 1) {
            Some((text, next)) => {
                if from + 1 < next <= s.len() {
                    let (rest, e) = css_rest_spec(s, next);
                    (seq![text] + rest, e)
                } else {
                    (Seq::empty(), from)
                }
            },
            None => (Seq::empty(), from),
        }
    } else {
        (Seq::empty(), from)
    }
}

/// A style-sheet specifier that does not point at a relative path is read
/// as one, relative to the importing sheet.
pub open spec fn css_rewrite(t: Seq<char>) -> Seq<char> {
    if crate::strutil::has_prefix(t, seq!['.', '/']) || crate::strutil::has_prefix(
        t,
        seq!['.', '.', '/'],
    ) {
        t
    } else {
        seq!['.', '/'] + t
    }
}

/// Every operand rewritten to a relative path.
pub open spec fn css_rewrite_all(ts: Seq<Seq<char>>) -> Seq<Seq<char>> {
    ts.map_values(|t: Seq<char>| css_rewrite(t))
}

/// Style-sheet operands as (family, text) pairs.
pub open spec fn css_dep_models(ts: Seq<Seq<char>>) -> Seq<(ImportKind, Seq<char>)> {
    ts.map_values(|t: Seq<char>| (ImportKind::Css, t))
}

/// A style-sheet import statement at `pos`: `@import`, at least one space,
/// then comma-separated operands, each rewritten to a relative path.
pub open spec fn css_spec(s: Seq<char>, pos: nat) -> Option<(Seq<Seq<char>>, nat)> {
    if has_at(s, pos, kw_at_import()) {
        let p = (pos + 7) as nat;
        let p2 = skip_spaces(s, p);
        if p2 == p {
            None
        } else {
            match css_item_spec(s, pos + 7) {
                Some((text, next)) => {
                    if pos + 7 < next <= s.len() {
                        let (rest, e) = css_rest_spec(s, next);
                        Some((css_rewrite_all(seq![text] + rest), e))
                    } else {
                        None
                    }
                },
                None => None,
            }
        }
    } else {
        None
    }
}

/// The statement match tried at one position: the allowed families in
/// order, each yielding its specifiers and the position after the match.
pub open spec fn try_stmt_spec(s: Seq<char>, pos: nat, c: ParseConditions) -> Option<
    (Seq<(ImportKind, Seq<char>)>, nat),
> {
    if c.esm && esm_spec(s, pos) is Some {
        let (text, next) = esm_spec(s, pos)->Some_0;
        Some((seq![(ImportKind::Esm, text)], next))
    } else if c.esm && export_spec(s, pos) is Some {
        let (text, next) = export_spec(s, pos)->Some_0;
        Some((seq![(ImportKind::Esm, text)], next))
    } else if c.require && require_spec(s, pos) is Some {
        let (text, next) = require_spec(s, pos)->Some_0;
        Some((seq![(ImportKind::Require, text)], next))
    } else if c.lazy_esm && lazy_esm_spec(s, pos) is Some {
        let (text, next) = lazy_esm_spec(s, pos)->Some_0;
        Some((seq![(ImportKind::Esm, text)], next))
    } else if c.css && css_spec(s, pos) is Some {
        let (texts, next) = css_spec(s, pos)->Some_0;
        Some((css_dep_models(texts), next))
    } else {
        None
    }
}

/// The whole scan from `pos`: collect each statement match, advance one
/// character where none applies.
pub open spec fn scan_spec(s: Seq<char>, pos: nat, c: ParseConditions) -> Seq<
    (ImportKind, Seq<char>),
>
    decreases s.len() - pos,
{
    if pos >= s.len() {
        Seq::empty()
    } else {
        match try_stmt_spec(s, pos, c) {
            Some((deps, next)) => {
                if pos < next <= s.len() {
                    deps + scan_spec(s, next, c)
                } else {
                    deps
                }
            },
            None => scan_spec(s, pos + 1, c),
        }
    }
}

/// Advances past horizontal white space.
fn skip_spaces_at(chars: &Vec<char>, from: usize) -> (r: usize)
    requires
        from <= chars.len(),
    ensures
        r == skip_spaces(chars@, from as nat),
        from <= r <= chars.len(),
{
    let mut i = from;
    while i < chars.len() && (chars[i] == ' ' || chars[i] == '\t')
        invariant
            from <= i <= chars.len(),
            skip_spaces(chars@, from as nat) == skip_spaces(chars@, i as nat),
        decreases chars.len() - i,
    {
        i = i + 1;
    }
    i
}

/// Finds the next quote character.
fn find_quote_at(chars: &Vec<char>, from: usize) -> (r: usize)
    requires
        from <= chars.len(),
    ensures
        r == find_quote(chars@, from as nat),
        from <= r <= chars.len(),
        r < chars.len() ==> is_quote(chars@[r as int]),
{
    let mut i = from;
    while i < chars.len() && !(chars[i] == '"' || chars[i] == '\'')
        invariant
            from <= i <= chars.len(),
            find_quote(chars@, from as nat) == find_quote(chars@, i as nat),
        decreases chars.len() - i,
    {
        i = i + 1;
    }
    i
}

/// Whether the text holds `pat` at position `i`.
fn match_at(chars: &Vec<char>, i: usize, pat: &Vec<char>) -> (r: bool)
    requires
        i <= chars.len(),
    ensures
        r == has_at(chars@, i as nat, pat@),
{
    if pat.len() > chars.len() - i {
        return false;
    }
    let mut k: usize = 0;
    while k < pat.len()
        invariant
            i + pat.len() <= chars.len(),
            k <= pat.len(),
            forall|j: int| 0 <= j < k ==> chars@[i + j] == pat@[j],
        decreases pat.len() - k,
    {
        if chars[i + k] != pat[k] {
            proof {
                assert(chars@.subrange(i as int, i as int + pat@.len() as int)[k as int]
                    != pat@[k as int]);
            }
            return false;
        }
        k = k + 1;
    }
    proof {
        assert(chars@.subrange(i as int, i as int + pat@.len() as int) =~= pat@);
    }
    true
}

/// Finds the next occurrence of `pat`.
pub(crate) fn find_sub_at(chars: &Vec<char>, from: usize, pat: &Vec<char>) -> (r: usize)
    requires
        from <= chars.len(),
    ensures
        r == find_sub(chars@, from as nat, pat@),
        from <= r <= chars.len(),
        r < chars.len() ==> has_at(chars@, r as nat, pat@),
{
    let mut i = from;
    while i < chars.len() && !match_at(chars, i, pat)
        invariant
            from <= i <= chars.len(),
            find_sub(chars@, from as nat, pat@) == find_sub(chars@, i as nat, pat@),
        decreases chars.len() - i,
    {
        i = i + 1;
    }
    i
}

/// Reads the string literal opening at `q`.
fn lit_at(input: &str, chars: &Vec<char>, q: usize) -> (r: Option<(String, usize)>)
    requires
        chars@ == input@,
        q < chars.len(),
    ensures
        match r {
            Some(p) => lit_from(input@, q as nat) == Some((p.0@, p.1 as nat)) && q < p.1
                <= chars.len(),
            None => lit_from(input@, q as nat) is None,
        },
{
    let e = find_quote_at(chars, q + 1);
    if e < chars.len() {
        let text = input.substring_char(q + 1, e).to_owned();
        Some((text, e + 1))
    } else {
        None
    }
}

/// Matches the `from` clause shared by named and re-export statements.
fn from_clause_at(input: &str, chars: &Vec<char>, p2: usize) -> (r: Option<(String, usize)>)
    requires
        chars@ == input@,
        p2 <= chars.len(),
    ensures
        match r {
            Some(p) => from_clause_spec(input@, p2 as nat) == Some((p.0@, p.1 as nat)) && p2 < p.1
                <= chars.len(),
            None => from_clause_spec(input@, p2 as nat) is None,
        },
{
    let pat = vec!['f', 'r', 'o', 'm'];
    proof {
        assert(pat@ =~= kw_from());
    }
    let f = find_sub_at(chars, p2, &pat);
    if f < chars.len() {
        let p3 = skip_spaces_at(chars, f + 4);
        if p3 > f + 4 && p3 < chars.len() && (chars[p3] == '"' || chars[p3] == '\'') {
            lit_at(input, chars, p3)
        } else {
            None
        }
    } else {
        None
    }
}

/// Matches a module import statement at `pos`.
fn esm_at(input: &str, chars: &Vec<char>, pos: usize) -> (r: Option<(String, usize)>)
    requires
        chars@ == input@,
        pos <= chars.len(),
    ensures
        match r {
            Some(p) => esm_spec(input@, pos as nat) == Some((p.0@, p.1 as nat)) && pos < p.1
                <= chars.len(),
            None => esm_spec(input@, pos as nat) is None,
        },
{
    let pat = vec!['i', 'm', 'p', 'o', 'r', 't'];
    proof {
        assert(pat@ =~= kw_import());
    }
    if !match_at(chars, pos, &pat) {
        return None;
    }
    let p = pos + 6;
    let p2 = skip_spaces_at(chars, p);
    if p2 == p {
        return None;
    }
    if p2 < chars.len() && (chars[p2] == '"' || chars[p2] == '\'') {
        lit_at(input, chars, p2)
    } else {
        from_clause_at(input, chars, p2)
    }
}

/// Matches a re-export statement at `pos`.
fn export_at(input: &str, chars: &Vec<char>, pos: usize) -> (r: Option<(String, usize)>)
    requires
        chars@ == input@,
        pos <= chars.len(),
    ensures
        match r {
            Some(p) => export_spec(input@, pos as nat) == Some((p.0@, p.1 as nat)) && pos < p.1
                <= chars.len(),
            None => export_spec(input@, pos as nat) is None,
        },
{
    let pat = vec!['e', 'x', 'p', 'o', 'r', 't'];
    proof {
        assert(pat@ =~= kw_export());
    }
    if !match_at(chars, pos, &pat) {
        return None;
    }
    let p = pos + 6;
    let p2 = skip_spaces_at(chars, p);
    if p2 == p {
        return None;
    }
    from_clause_at(input, chars, p2)
}

/// Matches the parenthesised call clause shared by dynamic imports and
/// `require`.
fn call_clause_at(input: &str, chars: &Vec<char>, p: usize) -> (r: Option<(String, usize)>)
    requires
        chars@ == input@,
        p <= chars.len(),
    ensures
        match r {
            Some(q) => call_clause_spec(input@, p as nat) == Some((q.0@, q.1 as nat)) && p < q.1
                <= chars.len(),
            None => call_clause_spec(input@, p as nat) is None,
        },
{
    let p2 = skip_spaces_at(chars, p);
    if p2 < chars.len() && chars[p2] == '(' {
        let p3 = skip_spaces_at(chars, p2 + 1);
        if p3 < chars.len() && (chars[p3] == '"' || chars[p3] == '\'') {
            match lit_at(input, chars, p3) {
                Some((text, q)) => {
                    let p4 = skip_spaces_at(chars, q);
                    if p4 < chars.len() && chars[p4] == ')' {
                        Some((text, p4 + 1))
                    } else {
                        None
                    }
                },
                None => None,
            }
        } else {
            None
        }
    } else {
        None
    }
}

/// Matches a dynamic import statement at `pos`.
fn lazy_esm_at(input: &str, chars: &Vec<char>, pos: usize) -> (r: Option<(String, usize)>)
    requires
        chars@ == input@,
        pos <= chars.len(),
    ensures
        match r {
            Some(p) => lazy_esm_spec(input@, pos as nat) == Some((p.0@, p.1 as nat)) && pos < p.1
                <= chars.len(),
            None => lazy_esm_spec(input@, pos as nat) is None,
        },
{
    let pat = vec!['i', 'm', 'p', 'o', 'r', 't'];
    proof {
        assert(pat@ =~= kw_import());
    }
    if !match_at(chars, pos, &pat) {
        return None;
    }
    call_clause_at(input, chars, pos + 6)
}

/// Matches a `require` statement at `pos`.
fn require_at(input: &str, chars: &Vec<char>, pos: usize) -> (r: Option<(String, usize)>)
    requires
        chars@ == input@,
        pos <= chars.len(),
    ensures
        match r {
            Some(p) => require_spec(input@, pos as nat) == Some((p.0@, p.1 as nat)) && pos < p.1
                <= chars.len(),
            None => require_spec(input@, pos as nat) is None,
        },
{
    let pat = vec!['r', 'e', 'q', 'u', 'i', 'r', 'e'];
    proof {
        assert(pat@ =~= kw_require());
    }
    if !match_at(chars, pos, &pat) {
        return None;
    }
    call_clause_at(input, chars, pos + 7)
}

/// Matches one style-sheet operand starting at `from`.
fn css_item_at(input: &str, chars: &Vec<char>, from: usize) -> (r: Option<(String, usize)>)
    requires
        chars@ == input@,
        from <= chars.len(),
    ensures
        match r {
            Some(p) => css_item_spec(input@, from as nat) == Some((p.0@, p.1 as nat)) && from < p.1
                <= chars.len(),
            None => css_item_spec(input@, from as nat) is None,
        },
{
    let p = skip_spaces_at(chars, from);
    if p < chars.len() && (chars[p] == '"' || chars[p] == '\'') {
        lit_at(input, chars, p)
    } else {
        let pat = vec!['u', 'r', 'l'];
        proof {
            assert(pat@ =~= kw_url());
        }
        let u = find_sub_at(chars, p, &pat);
        if u < chars.len() {
            let p2 = skip_spaces_at(chars, u + 3);
            if p2 < chars.len() && chars[p2] == '(' {
                let p3 = skip_spaces_at(chars, p2 + 1);
                if p3 < chars.len() && (chars[p3] == '"' || chars[p3] == '\'') {
                    match lit_at(input, chars, p3) {
                        Some((text, q)) => {
                            if q < chars.len() && chars[q] == ')' {
                                Some((text, q + 1))
                            } else {
                                None
                            }
                        },
                        None => None,
                    }
                } else {
                    None
                }
            } else {
                None
            }
        } else {
            None
        }
    }
}

/// Collects the comma-introduced operands after the first one.
fn css_rest_at(input: &str, chars: &Vec<char>, from: usize) -> (r: (Vec<String>, usize))
    requires
        chars@ == input@,
        from <= chars.len(),
    ensures
        css_rest_spec(input@, from as nat).0 == r.0.deep_view(),
        css_rest_spec(input@, from as nat).1 == r.1 as nat,
        from <= r.1 <= chars.len(),
{
    let mut texts: Vec<String> = Vec::new();
    let mut cur = from;
    loop
        invariant
            chars@ == input@,
            from <= cur <= chars.len(),
            css_rest_spec(input@, from as nat).0 =~= texts.deep_view() + css_rest_spec(
                input@,
                cur as nat,
            ).0,
            css_rest_spec(input@, from as nat).1 == css_rest_spec(input@, cur as nat).1,
        decreases chars.len() - cur,
    {
        if cur < chars.len() && chars[cur] == ',' {
            match css_item_at(input, chars, cur + 1) {
                Some((text, next)) => {
                    texts.push(text);
                    proof {
                        assert(css_rest_spec(input@, from as nat).0 =~= texts.deep_view()
                            + css_rest_spec(input@, next as nat).0);
                    }
                    cur = next;
                },
                None => {
                    return (texts, cur);
                },
            }
        } else {
            return (texts, cur);
        }
    }
}

/// Whether this specifier already points at a relative path.
fn starts_relative(t: &String) -> (r: bool)
    ensures
        r == (crate::strutil::has_prefix(t@, seq!['.', '/']) || crate::strutil::has_prefix(
            t@,
            seq!['.', '.', '/'],
        )),
{
    let s = t.as_str();
    let n = s.unicode_len();
    let dot_slash = n >= 2 && s.get_char(0) == '.' && s.get_char(1) == '/';
    let dot_dot_slash = n >= 3 && s.get_char(0) == '.' && s.get_char(1) == '.' && s.get_char(2)
        == '/';
    proof {
        if dot_slash {
            assert(t@.take(2) =~= seq!['.', '/']);
        }
        if dot_dot_slash {
            assert(t@.take(3) =~= seq!['.', '.', '/']);
        }
        if crate::strutil::has_prefix(t@, seq!['.', '/']) {
            assert(t@[0] == t@.take(2)[0] && t@[1] == t@.take(2)[1]);
        }
        if crate::strutil::has_prefix(t@, seq!['.', '.', '/']) {
            assert(t@[0] == t@.take(3)[0] && t@[1] == t@.take(3)[1] && t@[2] == t@.take(3)[2]);
        }
    }
    dot_slash || dot_dot_slash
}

/// Rewrites a style-sheet specifier to a relative path where needed.
fn rewrite_css(t: String) -> (r: String)
    ensures
        r@ == css_rewrite(t@),
{
    if starts_relative(&t) {
        t
    } else {
        let mut r = String::from_str("./");
        r.append(t.as_str());
        proof {
            reveal_strlit("./");
            assert("./"@ =~= seq!['.', '/']);
        }
        r
    }
}

/// Matches a style-sheet import statement at `pos`.
fn css_at(input: &str, chars: &Vec<char>, pos: usize) -> (r: Option<(Vec<String>, usize)>)
    requires
        chars@ == input@,
        pos <= chars.len(),
    ensures
        match r {
            Some(p) => css_spec(input@, pos as nat) == Some((p.0.deep_view(), p.1 as nat)) && pos
                < p.1 <= chars.len(),
            None => css_spec(input@, pos as nat) is None,
        },
{
    let pat = vec!['@', 'i', 'm', 'p', 'o', 'r', 't'];
    proof {
        assert(pat@ =~= kw_at_import());
    }
    if !match_at(chars, pos, &pat) {
        return None;
    }
    let p = pos + 7;
    let p2 = skip_spaces_at(chars, p);
    if p2 == p {
        return None;
    }
    match css_item_at(input, chars, p) {
        Some((text, next)) => {
            let (rest, _e) = css_rest_at(input, chars, next);
            let mut out: Vec<String> = Vec::new();
            out.push(rewrite_css(text));
            let ghost raw: Seq<Seq<char>> = seq![text@] + rest.deep_view();
            let mut k: usize = 0;
            while k < rest.len()
                invariant
                    raw == seq![text@] + rest.deep_view(),
                    k <= rest.len(),
                    out@.len() == k + 1,
                    forall|i: int| 0 <= i < k + 1 ==> #[trigger] out@[i]@ == css_rewrite(raw[i]),
                decreases rest.len() - k,
            {
                out.push(rewrite_css(rest[k].clone()));
                k = k + 1;
            }
            proof {
                assert forall|i: int| 0 <= i < out.deep_view().len() implies out.deep_view()[i]
                    == css_rewrite_all(raw)[i] by {
                    assert(out@[i]@ == css_rewrite(raw[i]));
                }
                assert(out.deep_view() =~= css_rewrite_all(raw));
            }
            Some((out, _e))
        },
        None => None,
    }
}

/// Tries every allowed statement family at one position.
fn try_stmt(input: &str, chars: &Vec<char>, pos: usize, c: &ParseConditions) -> (r: Option<
    (Vec<ImportDep>, usize),
>)
    requires
        chars@ == input@,
        pos <= chars.len(),
    ensures
        match r {
            Some(p) => try_stmt_spec(input@, pos as nat, *c) == Some(
                (deps_model(p.0@), p.1 as nat),
            ) && pos < p.1 <= chars.len(),
            None => try_stmt_spec(input@, pos as nat, *c) is None,
        },
{
    if c.esm {
        if let Some((text, next)) = esm_at(input, chars, pos) {
            let deps = vec![ImportDep::ESM(text)];
            proof {
                assert(deps_model(deps@) =~= seq![
                    (ImportKind::Esm, esm_spec(input@, pos as nat)->Some_0.0),
                ]);
            }
            return Some((deps, next));
        }
        if let Some((text, next)) = export_at(input, chars, pos) {
            let deps = vec![ImportDep::ESM(text)];
            proof {
                assert(deps_model(deps@) =~= seq![
                    (ImportKind::Esm, export_spec(input@, pos as nat)->Some_0.0),
                ]);
            }
            return Some((deps, next));
        }
    }
    if c.require {
        if let Some((text, next)) = require_at(input, chars, pos) {
            let deps = vec![ImportDep::REQUIRE(text)];
            proof {
                assert(deps_model(deps@) =~= seq![
                    (ImportKind::Require, require_spec(input@, pos as nat)->Some_0.0),
                ]);
            }
            return Some((deps, next));
        }
    }
    if c.lazy_esm {
        if let Some((text, next)) = lazy_esm_at(input, chars, pos) {
            let deps = vec![ImportDep::ESM(text)];
            proof {
                assert(deps_model(deps@) =~= seq![
                    (ImportKind::Esm, lazy_esm_spec(input@, pos as nat)->Some_0.0),
                ]);
            }
            return Some((deps, next));
        }
    }
    if c.css {
        if let Some((texts, next)) = css_at(input, chars, pos) {
            let mut deps: Vec<ImportDep> = Vec::new();
            let mut k: usize = 0;
            while k < texts.len()
                invariant
                    k <= texts.len(),
                    deps@.len() == k,
                    forall|i: int|
                        0 <= i < k ==> dep_kind(#[trigger] deps@[i]) == ImportKind::Css
                            && dep_text(deps@[i]) == texts.deep_view()[i],
                decreases texts.len() - k,
            {
                deps.push(ImportDep::CSS(texts[k].clone()));
                k = k + 1;
            }
            proof {
                assert forall|i: int| 0 <= i < deps_model(deps@).len() implies deps_model(deps@)[i]
                    == css_dep_models(texts.deep_view())[i] by {
                    assert(dep_kind(deps@[i]) == ImportKind::Css);
                    assert(dep_text(deps@[i]) == texts.deep_view()[i]);
                }
                assert(deps_model(deps@) =~= css_dep_models(texts.deep_view()));
            }
            return Some((deps, next));
        }
    }
    None
}

/// Matches one module import statement at the start of the input.
pub fn parse_esm_statement(input: &str) -> (r: Option<Vec<ImportDep>>)
    ensures
        match esm_spec(input@, 0) {
            Some(p) => r is Some && deps_model(r->Some_0@) == seq![(ImportKind::Esm, p.0)],
            None => r is None,
        },
{
    let chars = chars_of(input);
    match esm_at(input, &chars, 0) {
        Some((text, _)) => {
            let deps = vec![ImportDep::ESM(text)];
            proof {
                assert(deps_model(deps@) =~= seq![(ImportKind::Esm, esm_spec(input@, 0)->Some_0.0)]);
            }
            Some(deps)
        },
        None => None,
    }
}

/// Matches one dynamic import statement at the start of the input.
pub fn parse_lazy_esm_statement(input: &str) -> (r: Option<Vec<ImportDep>>)
    ensures
        match lazy_esm_spec(input@, 0) {
            Some(p) => r is Some && deps_model(r->Some_0@) == seq![(ImportKind::Esm, p.0)],
            None => r is None,
        },
{
    let chars = chars_of(input);
    match lazy_esm_at(input, &chars, 0) {
        Some((text, _)) => {
            let deps = vec![ImportDep::ESM(text)];
            proof {
                assert(deps_model(deps@) =~= seq![
                    (ImportKind::Esm, lazy_esm_spec(input@, 0)->Some_0.0),
                ]);
            }
            Some(deps)
        },
        None => None,
    }
}

/// Matches one `require` statement at the start of the input.
pub fn parse_require_statement(input: &str) -> (r: Option<Vec<ImportDep>>)
    ensures
        match require_spec(input@, 0) {
            Some(p) => r is Some && deps_model(r->Some_0@) == seq![(ImportKind::Require, p.0)],
            None => r is None,
        },
{
    let chars = chars_of(input);
    match require_at(input, &chars, 0) {
        Some((text, _)) => {
            let deps = vec![ImportDep::REQUIRE(text)];
            proof {
                assert(deps_model(deps@) =~= seq![
                    (ImportKind::Require, require_spec(input@, 0)->Some_0.0),
                ]);
            }
            Some(deps)
        },
        None => None,
    }
}

/// Matches one style-sheet import statement at the start of the input.
pub fn parse_css_import_statement(input: &str) -> (r: Option<Vec<ImportDep>>)
    ensures
        match css_spec(input@, 0) {
            Some(p) => r is Some && deps_model(r->Some_0@) == css_dep_models(p.0),
            None => r is None,
        },
{
    let chars = chars_of(input);
    match try_stmt(
        input,
        &chars,
        0,
        &ParseConditions { esm: false, require: false, lazy_esm: false, css: true },
    ) {
        Some((deps, _)) => Some(deps),
        None => None,
    }
}

/// Scans a whole text for the import statements the conditions allow and
/// returns their specifiers in textual order.
pub fn parse_deps(input: &str, conditions: ParseConditions) -> (r: Vec<ImportDep>)
    ensures
        deps_model(r@) == scan_spec(input@, 0, conditions),
{
    let chars = chars_of(input);
    let mut out: Vec<ImportDep> = Vec::new();
    let mut pos: usize = 0;
    while pos < chars.len()
        invariant
            chars@ == input@,
            pos <= chars.len(),
            deps_model(out@) + scan_spec(input@, pos as nat, conditions) =~= scan_spec(
                input@,
                0,
                conditions,
            ),
        decreases chars.len() - pos,
    {
        match try_stmt(input, &chars, pos, &conditions) {
            Some((mut deps, next)) => {
                let ghost prev = out@;
                out.append(&mut deps);
                proof {
                    assert(deps_model(out@) =~= deps_model(prev) + deps_model(out@.skip(
                        prev.len() as int,
                    )));
                    assert(out@.skip(prev.len() as int) =~= out@.subrange(
                        prev.len() as int,
                        out@.len() as int,
                    ));
                    assert(deps_model(out@) + scan_spec(input@, next as nat, conditions)
                        =~= scan_spec(input@, 0, conditions));
                }
                pos = next;
            },
            None => {
                pos = pos + 1;
            },
        }
    }
    out
}

} // verus!

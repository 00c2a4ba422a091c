//! Lexical path cleaning.
//!
//! `clean` removes duplicate separators, drops `.` components, and resolves
//! `..` components against the component before them: a normal component is
//! popped, a root keeps absorbing them, and on a relative path leading `..`
//! components stay.  No filesystem is consulted; the result of cleaning a
//! cleaned path is the path itself (`lemma_clean_idempotent`).

use vstd::prelude::*;

use crate::strutil::chars_of;

verus! {

/// Whether the path is rooted (begins with a separator).
pub open spec fn spec_rooted(s: Seq<char>) -> bool {
    s.len() > 0 && s[0] == '/'
}

/// The raw `/`-separated segments of `s` from position `from`: every stretch
/// between two separators, kept even when empty.
pub open spec fn raw_segs_from(s: Seq<char>, from: nat) -> Seq<Seq<char>>
    decreases s.len() - from,
{
    if from >= s.len() {
        seq![Seq::empty()]
    } else if s[from as int] == '/' {
        seq![Seq::empty()] + raw_segs_from(s, from + 1)
    } else {
        let rest = raw_segs_from(s, from + 1);
        seq![seq![s[from as int]] + rest[0]] + rest.skip(1)
    }
}

/// A segment the cleaner keeps: non-empty and not `.`.
pub open spec fn keep_seg(g: Seq<char>) -> bool {
    g.len() > 0 && !(g.len() == 1 && g[0] == '.')
}

/// The segments of `s` that matter for cleaning, from position `from`.
pub open spec fn kept_from(s: Seq<char>, from: nat) -> Seq<Seq<char>> {
    raw_segs_from(s, from).filter(|g: Seq<char>| keep_seg(g))
}

/// The segments of `s` that matter for cleaning.
pub open spec fn spec_segs(s: Seq<char>) -> Seq<Seq<char>> {
    kept_from(s, 0)
}

/// A parent-directory segment.
pub open spec fn is_dotdot(g: Seq<char>) -> bool {
    g.len() == 2 && g[0] == '.' && g[1] == '.'
}

/// One step of `..` resolution: what the output stack becomes when `seg`
/// arrives on top of `prev`.
pub open spec fn norm_step(prev: Seq<Seq<char>>, seg: Seq<char>, rooted: bool) -> Seq<Seq<char>> {
    if is_dotdot(seg) {
        if prev.len() > 0 {
            if is_dotdot(prev.last()) {
                prev.push(seg)
            } else {
                prev.drop_last()
            }
        } else if rooted {
            prev
        } else {
            prev.push(seg)
        }
    } else {
        prev.push(seg)
    }
}

/// `..` resolution over a whole segment sequence, left to right.
pub open spec fn norm_segs(segs: Seq<Seq<char>>, rooted: bool) -> Seq<Seq<char>>
    decreases segs.len(),
{
    if segs.len() == 0 {
        Seq::empty()
    } else {
        norm_step(norm_segs(segs.drop_last(), rooted), segs.last(), rooted)
    }
}

/// The segments joined by single separators.
pub open spec fn join_segs(segs: Seq<Seq<char>>) -> Seq<char>
    decreases segs.len(),
{
    if segs.len() == 0 {
        Seq::empty()
    } else if segs.len() == 1 {
        segs[0]
    } else {
        segs[0] + seq!['/'] + join_segs(segs.skip(1))
    }
}

/// The cleaned text: a root prefix where the input was rooted, `.` for an
/// empty relative result.
pub open spec fn render_segs(out: Seq<Seq<char>>, rooted: bool) -> Seq<char> {
    if rooted {
        seq!['/'] + join_segs(out)
    } else if out.len() == 0 {
        seq!['.']
    } else {
        join_segs(out)
    }
}

/// What `clean` returns on a path with view `s`.
pub open spec fn clean_spec(s: Seq<char>) -> Seq<char> {
    render_segs(norm_segs(spec_segs(s), spec_rooted(s)), spec_rooted(s))
}

/// `raw_segs_from` looks only at the characters from `from` on.
proof fn lemma_raw_from_skip(s: Seq<char>, from: nat)
    requires
        from <= s.len(),
    ensures
        raw_segs_from(s, from) == raw_segs_from(s.skip(from as int), 0),
    decreases s.len() - from,
{
    let t = s.skip(from as int);
    if from >= s.len() {
        assert(raw_segs_from(t, 0) =~= seq![Seq::<char>::empty()]);
    } else {
        lemma_raw_from_skip(s, from + 1);
        assert(t[0] == s[from as int]);
        assert(s.skip(from as int + 1) =~= t.skip(1));
        lemma_raw_from_skip(t, 1);
    }
}

/// There is always at least one raw segment.
proof fn lemma_raw_nonempty(s: Seq<char>, from: nat)
    ensures
        raw_segs_from(s, from).len() >= 1,
    decreases s.len() - from,
{
    if from < s.len() {
        lemma_raw_nonempty(s, from + 1);
    }
}

/// Unfolds the raw split at a segment that runs from `from` to `j`.
proof fn lemma_raw_segment(s: Seq<char>, from: nat, j: nat)
    requires
        from <= j <= s.len(),
        forall|k: int| from <= k < j ==> s[k] != '/',
        j == s.len() || s[j as int] == '/',
    ensures
        j == s.len() ==> raw_segs_from(s, from) == seq![s.subrange(from as int, j as int)],
        j < s.len() ==> raw_segs_from(s, from) == seq![s.subrange(from as int, j as int)]
            + raw_segs_from(s, j + 1),
    decreases j - from,
{
    if from == j {
        assert(s.subrange(from as int, j as int) =~= Seq::<char>::empty());
        if j == s.len() {
            assert(raw_segs_from(s, from) =~= seq![s.subrange(from as int, j as int)]);
        } else {
            assert(seq![Seq::<char>::empty()] + raw_segs_from(s, j + 1)
                =~= seq![s.subrange(from as int, j as int)] + raw_segs_from(s, j + 1));
        }
    } else {
        lemma_raw_segment(s, from + 1, j);
        let rest = raw_segs_from(s, from + 1);
        lemma_raw_nonempty(s, from + 1);
        if j == s.len() {
            assert(rest == seq![s.subrange(from as int + 1, j as int)]);
            assert(seq![seq![s[from as int]] + rest[0]] + rest.skip(1)
                =~= seq![s.subrange(from as int, j as int)]) by {
                assert(seq![s[from as int]] + s.subrange(from as int + 1, j as int)
                    =~= s.subrange(from as int, j as int));
                assert(rest.skip(1) =~= Seq::<Seq<char>>::empty());
            }
        } else {
            assert(rest == seq![s.subrange(from as int + 1, j as int)] + raw_segs_from(s, j + 1));
            assert(rest[0] == s.subrange(from as int + 1, j as int));
            assert(seq![s[from as int]] + rest[0] =~= s.subrange(from as int, j as int));
            assert(seq![seq![s[from as int]] + rest[0]] + rest.skip(1)
                =~= seq![s.subrange(from as int, j as int)] + raw_segs_from(s, j + 1)) by {
                assert(rest.skip(1) =~= raw_segs_from(s, j + 1));
            }
        }
    }
}

/// The kept segments of the empty tail.
proof fn lemma_kept_at_end(s: Seq<char>)
    ensures
        kept_from(s, s.len()) == Seq::<Seq<char>>::empty(),
{
    let pred = |g: Seq<char>| keep_seg(g);
    reveal_with_fuel(Seq::<_>::filter, 2);
    assert(raw_segs_from(s, s.len()) == seq![Seq::<char>::empty()]);
    assert(seq![Seq::<char>::empty()].drop_last() =~= Seq::<Seq<char>>::empty());
}

/// Filtering a one-element sequence.
proof fn lemma_filter_single(g: Seq<char>)
    ensures
        keep_seg(g) ==> seq![g].filter(|x: Seq<char>| keep_seg(x)) == seq![g],
        !keep_seg(g) ==> seq![g].filter(|x: Seq<char>| keep_seg(x)) == Seq::<Seq<char>>::empty(),
{
    reveal_with_fuel(Seq::<_>::filter, 2);
    assert(seq![g].drop_last() =~= Seq::<Seq<char>>::empty());
    assert(seq![g].last() == g);
}

/// Unfolds the kept split at a segment that runs from `from` to `j`.
proof fn lemma_kept_segment(s: Seq<char>, from: nat, j: nat)
    requires
        from <= j <= s.len(),
        forall|k: int| from <= k < j ==> s[k] != '/',
        j == s.len() || s[j as int] == '/',
    ensures
        ({
            let g = s.subrange(from as int, j as int);
            let head: Seq<Seq<char>> = if keep_seg(g) {
                seq![g]
            } else {
                Seq::empty()
            };
            let tail: Seq<Seq<char>> = if j == s.len() {
                Seq::empty()
            } else {
                kept_from(s, j + 1)
            };
            kept_from(s, from) == head + tail
        }),
{
    let pred = |x: Seq<char>| keep_seg(x);
    let g = s.subrange(from as int, j as int);
    lemma_raw_segment(s, from, j);
    lemma_filter_single(g);
    if j == s.len() {
        if keep_seg(g) {
            assert(kept_from(s, from) =~= seq![g] + Seq::<Seq<char>>::empty());
        } else {
            assert(kept_from(s, from) =~= Seq::<Seq<char>>::empty() + Seq::<Seq<char>>::empty());
        }
    } else {
        Seq::<Seq<char>>::filter_distributes_over_add(
            seq![g],
            raw_segs_from(s, j + 1),
            pred,
        );
        if !keep_seg(g) {
            assert(kept_from(s, from) =~= Seq::<Seq<char>>::empty() + kept_from(s, j + 1));
        }
    }
}

/// Skipping a separator keeps the kept segments.
proof fn lemma_kept_sep(s: Seq<char>, from: nat)
    requires
        from < s.len(),
        s[from as int] == '/',
    ensures
        kept_from(s, from) == kept_from(s, from + 1),
{
    lemma_kept_segment(s, from, from);
    assert(Seq::<Seq<char>>::empty() + kept_from(s, from + 1) =~= kept_from(s, from + 1));
}

/// The `/`-separated segments of the input, empty and `.` segments dropped,
/// in order.
pub fn split_segments(path: &str) -> (segs: Vec<String>)
    ensures
        segs.deep_view() == spec_segs(path@),
{
    let chars = chars_of(path);
    let n = chars.len();
    let mut segs: Vec<String> = Vec::new();
    let mut i: usize = 0;
    while i < n
        invariant
            n == path@.len(),
            chars@ == path@,
            i <= n,
            segs.deep_view() + kept_from(path@, i as nat) =~= spec_segs(path@),
        decreases n - i,
    {
        if chars[i] == '/' {
            proof {
                lemma_kept_sep(path@, i as nat);
            }
            i = i + 1;
        } else {
            let start = i;
            let mut j = i;
            while j < n && chars[j] != '/'
                invariant
                    n == path@.len(),
                    chars@ == path@,
                    i <= j <= n,
                    forall|k: int| i <= k < j ==> path@[k] != '/',
                decreases n - j,
            {
                j = j + 1;
            }
            let is_dot = j == start + 1 && chars[start] == '.';
            proof {
                lemma_kept_segment(path@, start as nat, j as nat);
                let g = path@.subrange(start as int, j as int);
                if is_dot {
                    assert(g.len() == 1 && g[0] == '.');
                    assert(!keep_seg(g));
                } else {
                    assert(g.len() > 0);
                    if g.len() == 1 {
                        assert(g[0] == path@[start as int]);
                        assert(g[0] != '.');
                    }
                    assert(keep_seg(g));
                }
            }
            if !is_dot {
                let seg = path.substring_char(start, j).to_owned();
                segs.push(seg);
                proof {
                    let g = path@.subrange(start as int, j as int);
                    assert(segs.deep_view() =~= segs.deep_view().drop_last().push(g));
                }
            }
            if j < n {
                i = j + 1;
            } else {
                i = j;
                proof {
                    lemma_kept_at_end(path@);
                }
            }
            proof {
                assert(segs.deep_view() + kept_from(path@, i as nat) =~= spec_segs(path@));
            }
        }
    }
    proof {
        lemma_kept_at_end(path@);
        assert(segs.deep_view() + Seq::<Seq<char>>::empty() =~= segs.deep_view());
    }
    segs
}

/// Whether this segment is `..`.
fn seg_is_dotdot(seg: &String) -> (r: bool)
    ensures
        r == is_dotdot(seg@),
{
    let s = seg.as_str();
    if s.unicode_len() != 2 {
        return false;
    }
    s.get_char(0) == '.' && s.get_char(1) == '.'
}

/// Resolves `..` segments against the stack of segments before them.
fn norm_segments(segs: Vec<String>, rooted: bool) -> (out: Vec<String>)
    ensures
        out.deep_view() == norm_segs(segs.deep_view(), rooted),
{
    let mut out: Vec<String> = Vec::new();
    let mut k: usize = 0;
    let n = segs.len();
    while k < n
        invariant
            n == segs.len(),
            k <= n,
            out.deep_view() == norm_segs(segs.deep_view().take(k as int), rooted),
        decreases n - k,
    {
        let ghost pre = segs.deep_view().take(k as int);
        let ghost post = segs.deep_view().take(k as int + 1);
        proof {
            assert(post.drop_last() =~= pre);
            assert(post.last() == segs.deep_view()[k as int]);
        }
        let seg = &segs[k];
        if seg_is_dotdot(seg) {
            let len = out.len();
            if len > 0 {
                if seg_is_dotdot(&out[len - 1]) {
                    out.push(seg.clone());
                    proof {
                        assert(out.deep_view() =~= norm_segs(post, rooted));
                    }
                } else {
                    proof {
                        assert(out.deep_view().last() == out.deep_view()[len - 1]);
                    }
                    out.pop();
                    proof {
                        assert(out.deep_view() =~= norm_segs(pre, rooted).drop_last());
                    }
                }
            } else if rooted {
                proof {
                    assert(out.deep_view() =~= norm_segs(post, rooted));
                }
            } else {
                out.push(seg.clone());
                proof {
                    assert(out.deep_view() =~= norm_segs(post, rooted));
                }
            }
        } else {
            out.push(seg.clone());
            proof {
                assert(out.deep_view() =~= norm_segs(post, rooted));
            }
        }
        k = k + 1;
    }
    proof {
        assert(segs.deep_view().take(n as int) =~= segs.deep_view());
    }
    out
}

/// Appending a segment to a joined sequence.
pub proof fn lemma_join_push(xs: Seq<Seq<char>>, x: Seq<char>)
    ensures
        xs.len() == 0 ==> join_segs(xs.push(x)) == x,
        xs.len() > 0 ==> join_segs(xs.push(x)) == join_segs(xs) + seq!['/'] + x,
    decreases xs.len(),
{
    if xs.len() == 0 {
        assert(xs.push(x)[0] == x);
    } else if xs.len() == 1 {
        assert(xs.push(x).skip(1) =~= seq![x]);
        assert(join_segs(seq![x]) == x);
        assert(xs.push(x)[0] == xs[0]);
        assert(join_segs(xs.push(x)) == xs[0] + seq!['/'] + x);
    } else {
        lemma_join_push(xs.skip(1), x);
        assert(xs.push(x).skip(1) =~= xs.skip(1).push(x));
        assert(join_segs(xs.push(x)) == xs[0] + seq!['/'] + join_segs(xs.skip(1).push(x)));
    }
}

/// Joins segments with single separators, with a root prefix where asked.
fn render_segments(out: &Vec<String>, rooted: bool) -> (r: String)
    ensures
        r@ == render_segs(out.deep_view(), rooted),
{
    let mut r = String::new();
    if rooted {
        r.append("/");
        proof {
            reveal_strlit("/");
            assert(r@ =~= seq!['/']);
        }
    } else if out.len() == 0 {
        let dot = String::from_str(".");
        proof {
            reveal_strlit(".");
            assert(dot@ =~= seq!['.']);
        }
        return dot;
    }
    let ghost prefix: Seq<char> = if rooted {
        seq!['/']
    } else {
        Seq::empty()
    };
    proof {
        assert(r@ =~= prefix);
    }
    let mut k: usize = 0;
    let n = out.len();
    while k < n
        invariant
            n == out.len(),
            k <= n,
            r@ == prefix + join_segs(out.deep_view().take(k as int)),
        decreases n - k,
    {
        let ghost pre = out.deep_view().take(k as int);
        let ghost post = out.deep_view().take(k as int + 1);
        proof {
            assert(post =~= pre.push(out.deep_view()[k as int]));
            lemma_join_push(pre, out.deep_view()[k as int]);
        }
        if k > 0 {
            r.append("/");
            proof {
                reveal_strlit("/");
                assert("/"@ =~= seq!['/']);
            }
        }
        r.append(out[k].as_str());
        proof {
            assert(r@ =~= prefix + join_segs(post));
        }
        k = k + 1;
    }
    proof {
        assert(out.deep_view().take(n as int) =~= out.deep_view());
        if rooted {
            assert(r@ =~= render_segs(out.deep_view(), rooted));
        } else {
            assert(out.deep_view().len() > 0);
            assert(Seq::<char>::empty() + join_segs(out.deep_view()) =~= join_segs(
                out.deep_view(),
            ));
        }
    }
    r
}

/// Cleans a path lexically: duplicate separators collapse, `.` segments
/// drop, and `..` segments consume the normal segment before them, stay at
/// the head of a relative path, and vanish against a root.  An empty result
/// renders as `.`.
pub fn clean(path: &str) -> (r: String)
    ensures
        r@ == clean_spec(path@),
{
    let chars = chars_of(path);
    let rooted = chars.len() > 0 && chars[0] == '/';
    let segs = split_segments(path);
    let out = norm_segments(segs, rooted);
    render_segments(&out, rooted)
}

/// A segment as it can appear in a cleaned path: kept by the splitter and
/// free of separators.
pub open spec fn seg_ok(g: Seq<char>) -> bool {
    keep_seg(g) && forall|k: int| 0 <= k < g.len() ==> g[k] != '/'
}

/// The shape of a normalised segment stack: every segment well-formed,
/// parent segments only as a leading run, and none at all on a rooted path.
pub open spec fn canon_segs(out: Seq<Seq<char>>, rooted: bool) -> bool {
    &&& forall|i: int| 0 <= i < out.len() ==> seg_ok(#[trigger] out[i])
    &&& forall|i: int, j: int|
        0 <= i < j < out.len() && is_dotdot(#[trigger] out[j]) ==> is_dotdot(#[trigger] out[i])
    &&& (rooted ==> forall|i: int| 0 <= i < out.len() ==> !is_dotdot(#[trigger] out[i]))
}

/// Raw segments hold no separator.
proof fn lemma_raw_slashfree(s: Seq<char>, from: nat)
    ensures
        forall|i: int, k: int|
            0 <= i < raw_segs_from(s, from).len() && 0 <= k < raw_segs_from(s, from)[i].len()
                ==> #[trigger] raw_segs_from(s, from)[i][k] != '/',
    decreases s.len() - from,
{
    if from >= s.len() {
    } else {
        lemma_raw_slashfree(s, from + 1);
        let rest = raw_segs_from(s, from + 1);
        if s[from as int] != '/' {
            lemma_raw_nonempty(s, from + 1);
            let cur = raw_segs_from(s, from);
            assert forall|i: int, k: int|
                0 <= i < cur.len() && 0 <= k < cur[i].len() implies #[trigger] cur[i][k]
                != '/' by {
                if i == 0 {
                    if k > 0 {
                        assert(cur[0][k] == rest[0][k - 1]);
                    }
                } else {
                    assert(cur[i] == rest.skip(1)[i - 1]);
                    assert(rest.skip(1)[i - 1] == rest[i]);
                }
            }
        }
    }
}

/// The kept segments of any path are well-formed.
proof fn lemma_segs_ok(s: Seq<char>)
    ensures
        forall|i: int| 0 <= i < spec_segs(s).len() ==> seg_ok(#[trigger] spec_segs(s)[i]),
{
    let pred = |g: Seq<char>| keep_seg(g);
    let raw = raw_segs_from(s, 0);
    lemma_raw_slashfree(s, 0);
    assert forall|i: int| 0 <= i < spec_segs(s).len() implies seg_ok(
        #[trigger] spec_segs(s)[i],
    ) by {
        raw.lemma_filter_pred(pred, i);
        let g = spec_segs(s)[i];
        assert(raw.filter(pred).contains(g));
        raw.lemma_filter_contains_rev(pred, g);
        assert(raw.contains(g));
        let j = choose|j: int| 0 <= j < raw.len() && raw[j] == g;
        assert(forall|k: int| 0 <= k < g.len() ==> g[k] != '/');
    }
}

/// Normalising well-formed segments yields a canonical stack.
proof fn lemma_norm_canon(segs: Seq<Seq<char>>, rooted: bool)
    requires
        forall|i: int| 0 <= i < segs.len() ==> seg_ok(#[trigger] segs[i]),
    ensures
        canon_segs(norm_segs(segs, rooted), rooted),
    decreases segs.len(),
{
    if segs.len() > 0 {
        assert(forall|i: int|
            0 <= i < segs.drop_last().len() ==> seg_ok(#[trigger] segs.drop_last()[i]));
        lemma_norm_canon(segs.drop_last(), rooted);
        let prev = norm_segs(segs.drop_last(), rooted);
        let seg = segs.last();
        let out = norm_segs(segs, rooted);
        assert(seg_ok(seg));
        if is_dotdot(seg) {
            if prev.len() > 0 && !is_dotdot(prev.last()) {
                assert(out == prev.drop_last());
                assert(forall|i: int| 0 <= i < out.len() ==> out[i] == prev[i]);
            } else if prev.len() > 0 {
                assert(out == prev.push(seg));
                assert(is_dotdot(prev.last()));
                assert forall|i: int, j: int|
                    0 <= i < j < out.len() && is_dotdot(#[trigger] out[j]) implies is_dotdot(
                    #[trigger] out[i],
                ) by {
                    if i < prev.len() {
                        assert(is_dotdot(prev[prev.len() - 1]));
                    }
                }
            } else {
                assert(!rooted || out == prev);
            }
        } else {
            assert(out == prev.push(seg));
            assert forall|i: int, j: int|
                0 <= i < j < out.len() && is_dotdot(#[trigger] out[j]) implies is_dotdot(
                #[trigger] out[i],
            ) by {
                assert(j < prev.len());
            }
        }
    }
}

/// Splitting the rendering of well-formed segments gives them back.
proof fn lemma_split_join(out: Seq<Seq<char>>)
    requires
        forall|i: int| 0 <= i < out.len() ==> seg_ok(#[trigger] out[i]),
    ensures
        spec_segs(join_segs(out)) == out,
    decreases out.len(),
{
    let s = join_segs(out);
    if out.len() == 0 {
        lemma_kept_at_end(s);
    } else if out.len() == 1 {
        assert(s == out[0]);
        lemma_kept_segment(s, 0, s.len());
        assert(s.subrange(0, s.len() as int) =~= s);
        assert(spec_segs(s) =~= seq![s] + Seq::<Seq<char>>::empty());
        assert(spec_segs(s) =~= out);
    } else {
        let g = out[0];
        let tail = join_segs(out.skip(1));
        assert(s == g + seq!['/'] + tail);
        assert(g.len() < s.len() && s[g.len() as int] == '/') by {
            assert(s[g.len() as int] == (g + seq!['/'])[g.len() as int]);
        }
        assert(forall|k: int| 0 <= k < g.len() ==> s[k] == g[k]);
        lemma_kept_segment(s, 0, g.len());
        assert(s.subrange(0, g.len() as int) =~= g);
        lemma_raw_from_skip(s, g.len() + 1);
        assert(s.skip(g.len() as int + 1) =~= tail);
        lemma_split_join(out.skip(1));
        assert(kept_from(s, g.len() + 1) == spec_segs(tail));
        assert(spec_segs(s) =~= seq![g] + out.skip(1));
        assert(seq![g] + out.skip(1) =~= out);
    }
}

/// Re-reading a rendered canonical stack gives the same stack and root flag.
proof fn lemma_reparse(out: Seq<Seq<char>>, rooted: bool)
    requires
        canon_segs(out, rooted),
    ensures
        spec_rooted(render_segs(out, rooted)) == rooted,
        spec_segs(render_segs(out, rooted)) == out,
{
    let r = render_segs(out, rooted);
    if rooted {
        assert(r[0] == '/');
        lemma_kept_sep(r, 0);
        lemma_raw_from_skip(r, 1);
        assert(r.skip(1) =~= join_segs(out));
        lemma_split_join(out);
    } else if out.len() == 0 {
        assert(r =~= seq!['.']);
        assert(r[0] != '/');
        lemma_kept_segment(r, 0, 1);
        assert(!keep_seg(r.subrange(0, 1))) by {
            assert(r.subrange(0, 1)[0] == '.');
        }
        assert(spec_segs(r) =~= Seq::<Seq<char>>::empty());
    } else {
        assert(r == join_segs(out));
        assert(out[0].len() > 0);
        assert(r.len() > 0 && r[0] == out[0][0]) by {
            if out.len() == 1 {
            } else {
                assert(r[0] == (out[0] + seq!['/'])[0]);
            }
        }
        assert(r[0] != '/');
        lemma_split_join(out);
    }
}

/// Normalising a canonical stack changes nothing.
proof fn lemma_norm_fix(out: Seq<Seq<char>>, rooted: bool)
    requires
        canon_segs(out, rooted),
    ensures
        norm_segs(out, rooted) == out,
    decreases out.len(),
{
    if out.len() > 0 {
        let prev = out.drop_last();
        assert(canon_segs(prev, rooted)) by {
            assert(forall|i: int| 0 <= i < prev.len() ==> prev[i] == out[i]);
        }
        lemma_norm_fix(prev, rooted);
        let seg = out.last();
        if is_dotdot(seg) {
            assert(!rooted);
            if prev.len() > 0 {
                assert(is_dotdot(prev.last())) by {
                    assert(prev[prev.len() - 1] == out[prev.len() - 1]);
                    assert(is_dotdot(out[out.len() - 1]));
                }
                assert(norm_segs(out, rooted) == prev.push(seg));
            } else {
                assert(norm_segs(out, rooted) == prev.push(seg));
            }
        } else {
            assert(norm_segs(out, rooted) == prev.push(seg));
        }
        assert(prev.push(seg) =~= out);
    } else {
        assert(norm_segs(out, rooted) =~= out);
    }
}

/// Cleaning is idempotent: cleaning a cleaned path returns it unchanged.
pub proof fn lemma_clean_idempotent(s: Seq<char>)
    ensures
        clean_spec(clean_spec(s)) == clean_spec(s),
{
    let rooted = spec_rooted(s);
    let out = norm_segs(spec_segs(s), rooted);
    lemma_segs_ok(s);
    lemma_norm_canon(spec_segs(s), rooted);
    lemma_reparse(out, rooted);
    lemma_norm_fix(out, rooted);
}

/// Types whose value can be cleaned as a path.
pub trait PathClean {
    /// The cleaned form of this path.
    fn clean(&self) -> (r: String);
}

impl PathClean for String {
    fn clean(&self) -> (r: String) {
        clean(self.as_str())
    }
}

} // verus!

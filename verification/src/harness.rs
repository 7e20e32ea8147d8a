//! Workspace-level policies of the core: fresh session names and the
//! file tree's stale directories after a batch of changes.

use crate::text::{
    append_chars, append_str, chars_eq, chars_of, decimal, join, join_chars, lemma_text_lt_irrefl,
    lemma_text_lt_total, lemma_text_lt_trans, string_of, text_lt, text_lt_exec,
};
use vstd::prelude::*;

pub mod commands;
pub mod listing;
pub mod pipe;
pub mod sessions;
pub mod sessions_archive;
pub mod snapshot;
pub mod thinking;
pub mod turn;
pub mod workspace;

verus! {

pub open spec fn str_views(v: Seq<String>) -> Seq<Seq<char>> {
    v.map_values(|s: String| s@)
}

/// `name n`.
pub open spec fn numbered_name(name: Seq<char>, n: nat) -> Seq<char> {
    name + seq![' '] + decimal(n)
}

/// `name n`, numbered from `n` on until it is not a title. The walk
/// never needs to pass `name T+2` for `T` titles (`lemma_numbered_is_free`).
pub open spec fn numbered_from(titles: Seq<Seq<char>>, name: Seq<char>, n: nat) -> Seq<char>
    decreases titles.len() + 2 - n,
{
    let s = numbered_name(name, n);
    if !titles.contains(s) || n >= titles.len() + 2 {
        s
    } else {
        numbered_from(titles, name, n + 1)
    }
}

/// The first of the first eight draws, from `i` on, that is not a title.
pub open spec fn first_fresh(titles: Seq<Seq<char>>, ds: Seq<Seq<char>>, i: int) -> Option<int>
    decreases 8 - i,
{
    if i < 0 || i >= 8 || i >= ds.len() {
        None
    } else if !titles.contains(ds[i]) {
        Some(i)
    } else {
        first_fresh(titles, ds, i + 1)
    }
}

/// The name chosen from the draws: the first fresh one of the first
/// eight, else the ninth numbered from 2.
pub open spec fn unique_among(titles: Seq<Seq<char>>, ds: Seq<Seq<char>>) -> Seq<char> {
    match first_fresh(titles, ds, 0) {
        Some(i) => ds[i],
        None => numbered_from(titles, ds[8], 2),
    }
}

/// The draws a name was chosen from: drawn until one is fresh, nine at
/// most (the first eight that are taken, then one to number).
pub open spec fn draw_run(titles: Seq<Seq<char>>, ds: Seq<Seq<char>>) -> bool {
    &&& 1 <= ds.len() <= 9
    &&& ds.len() < 9 ==> first_fresh(titles, ds, 0) == Some(ds.len() - 1)
    &&& ds.len() == 9 ==> first_fresh(titles, ds, 0) is None
}

/// The chosen name is never a title: a fresh draw, or the numbered one.
pub proof fn lemma_unique_is_free(titles: Seq<Seq<char>>, ds: Seq<Seq<char>>)
    requires
        draw_run(titles, ds),
    ensures
        !titles.contains(unique_among(titles, ds)),
{
    lemma_fresh_found(titles, ds, 0);
    if ds.len() == 9 {
        lemma_numbered_is_free(titles, ds[8]);
    }
}

proof fn lemma_fresh_found(titles: Seq<Seq<char>>, ds: Seq<Seq<char>>, i: int)
    requires
        0 <= i,
    ensures
        first_fresh(titles, ds, i) matches Some(k) ==> 0 <= k < ds.len() && !titles.contains(ds[k]),
    decreases 8 - i,
{
    if i < 8 && i < ds.len() && titles.contains(ds[i]) {
        lemma_fresh_found(titles, ds, i + 1);
    }
}

proof fn lemma_decimal_injective(a: nat, b: nat)
    requires
        decimal(a) == decimal(b),
    ensures
        a == b,
{
    crate::session::lines::lemma_decimal_value(a);
    crate::session::lines::lemma_decimal_value(b);
}

proof fn lemma_numbered_injective(name: Seq<char>, a: nat, b: nat)
    requires
        numbered_name(name, a) == numbered_name(name, b),
    ensures
        a == b,
{
    let k = name.len() + 1int;
    assert(numbered_name(name, a).skip(k) =~= decimal(a));
    assert(numbered_name(name, b).skip(k) =~= decimal(b));
    lemma_decimal_injective(a, b);
}

proof fn lemma_numbered_all_taken(titles: Seq<Seq<char>>, name: Seq<char>, n: nat)
    requires
        2 <= n <= titles.len() + 2,
        titles.contains(numbered_from(titles, name, n)),
    ensures
        forall|m: nat| n <= m <= titles.len() + 2 ==> titles.contains(#[trigger] numbered_name(name, m)),
        numbered_from(titles, name, n) == numbered_name(name, (titles.len() + 2) as nat),
    decreases titles.len() + 2 - n,
{
    if n < titles.len() + 2 {
        lemma_numbered_all_taken(titles, name, n + 1);
    }
}

/// Numbering a name from 2 always ends on a name that is not a title:
/// `T` titles cannot hold all of the `T + 1` names `name 2` to
/// `name T+2`.
pub proof fn lemma_numbered_is_free(titles: Seq<Seq<char>>, name: Seq<char>)
    ensures
        !titles.contains(numbered_from(titles, name, 2)),
{
    broadcast use vstd::seq_lib::seq_to_set_is_finite;

    if titles.contains(numbered_from(titles, name, 2)) {
        let t = titles.len();
        lemma_numbered_all_taken(titles, name, 2);
        let ns = Seq::new((t + 1) as nat, |i: int| numbered_name(name, (i + 2) as nat));
        assert(ns.no_duplicates()) by {
            assert forall|i: int, j: int| 0 <= i < ns.len() && 0 <= j < ns.len() && i != j implies ns[i] != ns[j] by {
                if ns[i] == ns[j] {
                    lemma_numbered_injective(name, (i + 2) as nat, (j + 2) as nat);
                }
            }
        }
        ns.unique_seq_to_set();
        assert(ns.to_set().subset_of(titles.to_set())) by {
            assert forall|x: Seq<char>| ns.to_set().contains(x) implies titles.to_set().contains(x) by {
                let i = choose|i: int| 0 <= i < ns.len() && ns[i] == x;
                assert(titles.contains(numbered_name(name, (i + 2) as nat)));
            }
        }
        vstd::set_lib::lemma_len_subset(ns.to_set(), titles.to_set());
        titles.lemma_cardinality_of_set();
        assert(false);
    }
}

fn contains_text(titles: &[String], name: &[char]) -> (r: bool)
    ensures
        r == str_views(titles@).contains(name@),
{
    let mut i: usize = 0;
    while i < titles.len()
        invariant
            i <= titles@.len(),
            forall|k: int| 0 <= k < i ==> titles@[k]@ != name@,
        decreases titles@.len() - i,
    {
        let t = chars_of(titles[i].as_str());
        if chars_eq(&t, name) {
            assert(str_views(titles@)[i as int] == name@);
            return true;
        }
        i = i + 1;
    }
    proof {
        if str_views(titles@).contains(name@) {
            let k = choose|k: int| 0 <= k < str_views(titles@).len() && str_views(titles@)[k] == name@;
            assert(titles@[k]@ == name@);
        }
    }
    false
}

/// Appends the decimal representation of `n`.
fn push_decimal_wide(out: &mut Vec<char>, n: u128)
    ensures
        final(out)@ == old(out)@ + decimal(n as nat),
    decreases n,
{
    if n >= 10 {
        push_decimal_wide(out, n / 10);
    }
    let d = (n % 10) as u8;
    out.push((48u8 + d) as char);
    proof {
        assert(old(out)@ + decimal(n as nat) =~= out@) by {
            if n >= 10 {
                assert(decimal(n as nat) == decimal((n / 10) as nat).push(crate::text::digit_char((n % 10) as int)));
            }
        }
    }
}

/// `name n` for the first `n` from 2 that is not a title.
fn numbered(titles: &[String], name: &[char]) -> (r: String)
    ensures
        r@ == numbered_from(str_views(titles@), name@, 2),
{
    let ghost tv = str_views(titles@);
    let cap: u128 = titles.len() as u128 + 2;
    let mut n: u128 = 2;
    loop
        invariant
            2 <= n <= cap,
            cap == titles@.len() + 2,
            tv == str_views(titles@),
            tv.len() == titles@.len(),
            numbered_from(tv, name@, 2) == numbered_from(tv, name@, n as nat),
        decreases cap - n,
    {
        let mut s: Vec<char> = Vec::new();
        append_chars(&mut s, name);
        s.push(' ');
        push_decimal_wide(&mut s, n);
        assert(s@ =~= numbered_name(name@, n as nat));
        if !contains_text(titles, &s) || n >= cap {
            return string_of(&s);
        }
        n = n + 1;
    }
}

/// A fresh session name against the existing titles: the first of up to
/// eight draws that is not taken; after eight taken draws, the next draw
/// numbered (`name 2`, `name 3`, ...) until it is free. The name comes
/// from the values `draw` handed back, drawn in order until one is fresh.
pub fn unique_name<F: Fn() -> String>(titles: &[String], draw: F) -> (r: String)
    requires
        call_requires(draw, ()),
    ensures
        exists|ds: Seq<String>|
            {
                &&& forall|i: int| 0 <= i < ds.len() ==> call_ensures(draw, (), #[trigger] ds[i])
                &&& draw_run(str_views(titles@), str_views(ds))
                &&& r@ == unique_among(str_views(titles@), str_views(ds))
            },
{
    let ghost tv = str_views(titles@);
    let mut name = draw();
    let ghost mut drawn: Seq<String> = seq![name];
    let mut k: usize = 0;
    while k < 8
        invariant
            k <= 8,
            tv == str_views(titles@),
            call_requires(draw, ()),
            drawn.len() == k + 1,
            drawn[k as int] == name,
            forall|i: int| 0 <= i < drawn.len() ==> call_ensures(draw, (), #[trigger] drawn[i]),
            forall|q: int| 0 <= q < k ==> tv.contains(#[trigger] str_views(drawn)[q]),
        decreases 8 - k,
    {
        let v = chars_of(name.as_str());
        if !contains_text(titles, &v) {
            proof {
                let dv = str_views(drawn);
                lemma_first_fresh(tv, dv, 0, k as int);
                assert(name@ == unique_among(tv, dv));
            }
            return name;
        }
        let ghost before = drawn;
        proof {
            assert(tv.contains(str_views(drawn)[k as int]));
        }
        name = draw();
        proof {
            drawn = drawn.push(name);
            assert forall|q: int| 0 <= q < k + 1 implies tv.contains(#[trigger] str_views(drawn)[q]) by {
                assert(str_views(drawn)[q] == str_views(before)[q]);
            }
        }
        k = k + 1;
    }
    let v = chars_of(name.as_str());
    let r = numbered(titles, &v);
    proof {
        let dv = str_views(drawn);
        lemma_first_fresh(tv, dv, 0, 8);
        assert(r@ == unique_among(tv, dv));
    }
    r
}

proof fn lemma_first_fresh(tv: Seq<Seq<char>>, ds: Seq<Seq<char>>, i: int, k: int)
    requires
        0 <= i <= k <= 8,
        ds.len() == k + 1,
        forall|q: int| 0 <= q < k ==> tv.contains(#[trigger] ds[q]),
        k < 8 ==> !tv.contains(ds[k]),
    ensures
        first_fresh(tv, ds, i) == if k < 8 { Some(k) } else { None::<int> },
    decreases 8 - i,
{
    if i < k {
        assert(tv.contains(ds[i]));
        lemma_first_fresh(tv, ds, i + 1, k);
    }
}

/// What `Path::strip_prefix` leaves of `path` below `base`, as text.
pub uninterp spec fn spec_strip_prefix(path: Seq<char>, base: Seq<char>) -> Option<Seq<char>>;

/// The texts of `Path::components` of `path`.
pub uninterp spec fn spec_components(path: Seq<char>) -> Seq<Seq<char>>;

/// `std::path::Path::strip_prefix`: `path` relative to `base` when `base`
/// is a component-wise prefix of it, as text. The result is taken as a
/// function of the two paths; nothing more is claimed of it.
#[verifier::external_body]
pub(crate) fn strip_path_prefix(path: &str, base: &str) -> (r: Option<String>)
    ensures
        match r {
            Some(s) => spec_strip_prefix(path@, base@) == Some(s@),
            None => spec_strip_prefix(path@, base@) is None,
        },
{
    match std::path::Path::new(path).strip_prefix(base) {
        Ok(rel) => Some(rel.to_string_lossy().into_owned()),
        Err(_) => None,
    }
}

/// `std::path::Path::components`: the path's components, each as text.
/// The result is taken as a function of the path; nothing more is claimed
/// of it.
#[verifier::external_body]
pub(crate) fn path_components(path: &str) -> (r: Vec<String>)
    ensures
        str_views(r@) == spec_components(path@),
{
    std::path::Path::new(path).components().map(|c| c.as_os_str().to_string_lossy().into_owned()).collect()
}

/// The files pane's excluded directory names.
pub open spec fn is_excluded(c: Seq<char>) -> bool {
    ||| c == ".git"@
    ||| c == "node_modules"@
    ||| c == "target"@
    ||| c == "dist"@
    ||| c == "build"@
    ||| c == "out"@
    ||| c == ".venv"@
    ||| c == "__pycache__"@
}

pub(crate) fn is_excluded_exec(c: &[char]) -> (r: bool)
    ensures
        r == is_excluded(c@),
{
    let names = [".git", "node_modules", "target", "dist", "build", "out", ".venv", "__pycache__"];
    let mut i: usize = 0;
    while i < 8
        invariant
            i <= 8,
            names@ == seq![".git", "node_modules", "target", "dist", "build", "out", ".venv", "__pycache__"],
            forall|k: int| 0 <= k < i ==> c@ != (#[trigger] names@[k])@,
        decreases 8 - i,
    {
        let n = chars_of(names[i]);
        if chars_eq(&n, c) {
            return true;
        }
        i = i + 1;
    }
    assert(c@ != names@[0]@ && c@ != names@[1]@ && c@ != names@[2]@ && c@ != names@[3]@);
    assert(c@ != names@[4]@ && c@ != names@[5]@ && c@ != names@[6]@ && c@ != names@[7]@);
    false
}

/// A directory as the pane names it: its components joined by `/`, the
/// root as `.`.
pub open spec fn dir_text(parts: Seq<Seq<char>>) -> Seq<char> {
    if parts.len() == 0 {
        "."@
    } else {
        join(parts, "/"@)
    }
}

/// The stale directories one changed path contributes: itself and its
/// parent, unless it lies in an excluded subtree; the root for a path
/// outside the workspace.
pub open spec fn path_candidates(path: Seq<char>, cwd: Seq<char>) -> Seq<Seq<char>> {
    rel_candidates(path_rel(path, cwd))
}

/// A changed path as the workspace sees it: the components of its part
/// below the workspace, or `None` when it lies outside.
pub open spec fn path_rel(path: Seq<char>, cwd: Seq<char>) -> Option<Seq<Seq<char>>> {
    match spec_strip_prefix(path, cwd) {
        None => None,
        Some(rel) => Some(spec_components(rel)),
    }
}

/// The stale directories one changed path contributes, from its
/// components below the workspace (`None`: outside it).
pub open spec fn rel_candidates(rel: Option<Seq<Seq<char>>>) -> Seq<Seq<char>> {
    match rel {
        None => seq!["."@],
        Some(comps) => {
            if exists|i: int| 0 <= i < comps.len() && is_excluded(#[trigger] comps[i]) {
                Seq::empty()
            } else {
                seq![
                    dir_text(comps),
                    dir_text(if comps.len() == 0 { comps } else { comps.drop_last() }),
                ]
            }
        },
    }
}

/// Every stale directory the changed paths contribute, given by their
/// components below the workspace, possibly repeated.
pub open spec fn rels_candidates(rels: Seq<Option<Seq<Seq<char>>>>) -> Seq<Seq<char>>
    decreases rels.len(),
{
    if rels.len() == 0 {
        Seq::empty()
    } else {
        rels_candidates(rels.drop_last()) + rel_candidates(rels.last())
    }
}

pub open spec fn rel_views(v: Seq<Option<Vec<String>>>) -> Seq<Option<Seq<Seq<char>>>> {
    v.map_values(
        |o: Option<Vec<String>>|
            match o {
                Some(c) => Some(str_views(c@)),
                None => None,
            },
    )
}

pub open spec fn batch_rels(batch: Seq<Seq<char>>, cwd: Seq<char>) -> Seq<Option<Seq<Seq<char>>>> {
    batch.map_values(|p: Seq<char>| path_rel(p, cwd))
}

proof fn lemma_batch_rels(batch: Seq<Seq<char>>, cwd: Seq<char>)
    ensures
        batch_candidates(batch, cwd) == rels_candidates(batch_rels(batch, cwd)),
    decreases batch.len(),
{
    if batch.len() > 0 {
        lemma_batch_rels(batch.drop_last(), cwd);
        assert(batch_rels(batch, cwd).drop_last() =~= batch_rels(batch.drop_last(), cwd));
    }
}

/// Every stale directory the batch contributes, possibly repeated.
pub open spec fn batch_candidates(batch: Seq<Seq<char>>, cwd: Seq<char>) -> Seq<Seq<char>>
    decreases batch.len(),
{
    if batch.len() == 0 {
        Seq::empty()
    } else {
        batch_candidates(batch.drop_last(), cwd) + path_candidates(batch.last(), cwd)
    }
}

/// Strictly ascending texts.
pub open spec fn ascending(v: Seq<Seq<char>>) -> bool {
    forall|i: int, j: int| 0 <= i < j < v.len() ==> text_lt(#[trigger] v[i], #[trigger] v[j])
}

pub open spec fn vec_views(v: Seq<Vec<char>>) -> Seq<Seq<char>> {
    v.map_values(|x: Vec<char>| x@)
}

/// Adds `x` to a strictly ascending list, once.
fn insert_unique(set: &mut Vec<Vec<char>>, x: Vec<char>)
    requires
        ascending(vec_views(old(set)@)),
    ensures
        ascending(vec_views(final(set)@)),
        forall|y: Seq<char>| #[trigger] vec_views(final(set)@).contains(y) <==> (vec_views(old(set)@).contains(y) || y == x@),
{
    let ghost before = vec_views(set@);
    let n = set.len();
    let mut j: usize = 0;
    while j < n
        invariant
            n == set@.len(),
            vec_views(set@) == before,
            before == vec_views(old(set)@),
            ascending(before),
            j <= n,
            forall|q: int| 0 <= q < j ==> text_lt(#[trigger] before[q], x@),
        decreases n - j,
    {
        assert(before[j as int] == set@[j as int]@);
        if chars_eq(&set[j], &x) {
            assert(before.contains(x@));
            return;
        }
        if text_lt_exec(&x, &set[j]) {
            let ghost xv = x@;
            set.insert(j, x);
            proof {
                lemma_insert_sorted(before, vec_views(set@), j as int, xv);
            }
            return;
        }
        proof {
            lemma_text_lt_total(x@, set@[j as int]@);
        }
        j = j + 1;
    }
    let ghost xv = x@;
    set.push(x);
    proof {
        lemma_insert_sorted(before, vec_views(set@), n as int, xv);
    }
}

proof fn lemma_insert_sorted(before: Seq<Seq<char>>, after: Seq<Seq<char>>, j: int, x: Seq<char>)
    requires
        ascending(before),
        0 <= j <= before.len(),
        after.len() == before.len() + 1,
        forall|q: int| 0 <= q < j ==> #[trigger] after[q] == before[q],
        forall|q: int| j < q < after.len() ==> #[trigger] after[q] == before[q - 1],
        after[j] == x,
        forall|q: int| 0 <= q < j ==> text_lt(#[trigger] before[q], x),
        j < before.len() ==> text_lt(x, before[j]),
    ensures
        ascending(after),
        forall|y: Seq<char>| #[trigger] after.contains(y) <==> (before.contains(y) || y == x),
{
    assert forall|a: int, b: int| 0 <= a < b < after.len() implies text_lt(#[trigger] after[a], #[trigger] after[b]) by {
        if b < j {
            assert(after[a] == before[a] && after[b] == before[b]);
        } else if b == j {
            assert(after[a] == before[a]);
        } else if a < j {
            assert(after[a] == before[a] && after[b] == before[b - 1]);
            if b - 1 > j {
                lemma_text_lt_trans(x, before[j], before[b - 1]);
            }
            lemma_text_lt_trans(before[a], x, before[b - 1]);
        } else if a == j {
            assert(after[b] == before[b - 1]);
            if b - 1 > j {
                lemma_text_lt_trans(x, before[j], before[b - 1]);
            }
        } else {
            assert(after[a] == before[a - 1] && after[b] == before[b - 1]);
        }
    }
    assert forall|y: Seq<char>| #[trigger] after.contains(y) <==> (before.contains(y) || y == x) by {
        if after.contains(y) {
            let k = choose|k: int| 0 <= k < after.len() && after[k] == y;
            if k < j {
                assert(before[k] == y);
            } else if k > j {
                assert(before[k - 1] == y);
            }
        }
        if before.contains(y) {
            let k = choose|k: int| 0 <= k < before.len() && before[k] == y;
            if k < j {
                assert(after[k] == y);
            } else {
                assert(after[k + 1] == y);
            }
        }
        if y == x {
            assert(after[j] == y);
        }
    }
}

/// The stale directories of a batch of changed paths, each given by its
/// components below the workspace (`None`: outside it): each path
/// contributes itself and its parent, excluded subtrees dropped, the root
/// reported as `.`; a path outside marks the root stale; an empty batch
/// (a rescan trigger) marks the root stale. Sorted, without repeats.
pub fn stale_dirs(rels: &[Option<Vec<String>>]) -> (r: Vec<String>)
    ensures
        rels@.len() == 0 ==> str_views(r@) == seq!["."@],
        rels@.len() > 0 ==> ascending(str_views(r@)) && forall|y: Seq<char>|
            #[trigger] str_views(r@).contains(y) <==> rels_candidates(rel_views(rels@)).contains(y),
{
    if rels.len() == 0 {
        let mut v: Vec<String> = Vec::new();
        v.push(String::from_str("."));
        assert(str_views(v@) =~= seq!["."@]);
        return v;
    }
    let ghost bv = rel_views(rels@);
    let mut set: Vec<Vec<char>> = Vec::new();
    let slash = chars_of("/");
    let dot = chars_of(".");
    let mut i: usize = 0;
    assert(bv.take(0) =~= Seq::<Option<Seq<Seq<char>>>>::empty());
    while i < rels.len()
        invariant
            i <= rels@.len(),
            bv == rel_views(rels@),
            slash@ == "/"@,
            dot@ == "."@,
            ascending(vec_views(set@)),
            forall|y: Seq<char>| #[trigger] vec_views(set@).contains(y) <==> rels_candidates(bv.take(i as int)).contains(y),
        decreases rels@.len() - i,
    {
        assert(bv.take(i + 1).drop_last() =~= bv.take(i as int));
        let ghost prev = rels_candidates(bv.take(i as int));
        let ghost add = rel_candidates(bv[i as int]);
        assert(rels_candidates(bv.take(i + 1)) == prev + add);
        let ghost s0 = vec_views(set@);
        match &rels[i] {
            None => {
                insert_unique(&mut set, dot.clone());
                proof {
                    assert(add =~= seq!["."@]);
                    lemma_contains_concat(prev, add);
                    assert forall|y: Seq<char>| #[trigger] vec_views(set@).contains(y) <==> (prev + add).contains(y) by {
                        if y == "."@ {
                            assert(add[0] == y);
                        }
                        if add.contains(y) {
                            let k = choose|k: int| 0 <= k < add.len() && add[k] == y;
                        }
                    }
                }
            },
            Some(comps) => {
                let ghost cv = str_views(comps@);
                let mut parts: Vec<Vec<char>> = Vec::new();
                let mut excluded = false;
                let mut k: usize = 0;
                while k < comps.len()
                    invariant
                        k <= comps@.len(),
                        str_views(comps@) == cv,
                        vec_views(parts@) == cv.take(k as int),
                        excluded == exists|q: int| 0 <= q < k && is_excluded(#[trigger] cv[q]),
                    decreases comps@.len() - k,
                {
                    let c = chars_of(comps[k].as_str());
                    assert(cv[k as int] == comps@[k as int]@);
                    if is_excluded_exec(&c) {
                        excluded = true;
                    }
                    let ghost pb = vec_views(parts@);
                    let ghost cc = c@;
                    parts.push(c);
                    assert(vec_views(parts@) =~= pb.push(cc));
                    assert(cv.take(k + 1) =~= cv.take(k as int).push(cv[k as int]));
                    k = k + 1;
                }
                assert(cv.take(comps@.len() as int) =~= cv);
                if excluded {
                    proof {
                        assert(add =~= Seq::<Seq<char>>::empty());
                        assert(prev + add =~= prev);
                    }
                } else {
                    let me = if parts.len() == 0 { dot.clone() } else { join_chars(&parts, &slash) };
                    assert(me@ == dir_text(cv));
                    insert_unique(&mut set, me);
                    let ghost pv = if cv.len() == 0 { cv } else { cv.drop_last() };
                    if parts.len() > 0 {
                        parts.pop();
                    }
                    assert(vec_views(parts@) =~= pv);
                    let up = if parts.len() == 0 { dot.clone() } else { join_chars(&parts, &slash) };
                    assert(up@ == dir_text(pv));
                    let ghost s1 = vec_views(set@);
                    insert_unique(&mut set, up);
                    proof {
                        assert(add =~= seq![dir_text(cv), dir_text(pv)]);
                        lemma_contains_concat(prev, add);
                        assert forall|y: Seq<char>| #[trigger] vec_views(set@).contains(y) <==> (prev + add).contains(y) by {
                            if y == dir_text(cv) {
                                assert(add[0] == y);
                            }
                            if y == dir_text(pv) {
                                assert(add[1] == y);
                            }
                            if add.contains(y) {
                                let k = choose|k: int| 0 <= k < add.len() && add[k] == y;
                            }
                            assert(s1.contains(y) <==> (s0.contains(y) || y == dir_text(cv)));
                        }
                    }
                }
            },
        }
        i = i + 1;
    }
    assert(bv.take(rels@.len() as int) =~= bv);
    let mut out: Vec<String> = Vec::new();
    let mut q: usize = 0;
    while q < set.len()
        invariant
            q <= set@.len(),
            str_views(out@) == vec_views(set@).take(q as int),
        decreases set@.len() - q,
    {
        let s = string_of(&set[q]);
        let ghost before = str_views(out@);
        out.push(s);
        assert(str_views(out@) =~= before.push(set@[q as int]@));
        assert(vec_views(set@).take(q + 1) =~= vec_views(set@).take(q as int).push(set@[q as int]@));
        q = q + 1;
    }
    assert(vec_views(set@).take(set@.len() as int) =~= vec_views(set@));
    out
}

/// One batch's stale directories, workspace-relative: each changed path
/// contributes itself and its parent (the directory that lists it),
/// excluded subtrees dropped, the root reported as `.`; a path outside the
/// workspace marks the root stale; an empty batch (a rescan trigger)
/// marks the root stale. Sorted, without repeats.
pub fn tree_changed_dirs(cwd: &str, batch: &[String]) -> (r: Vec<String>)
    ensures
        batch@.len() == 0 ==> str_views(r@) == seq!["."@],
        batch@.len() > 0 ==> ascending(str_views(r@)) && forall|y: Seq<char>|
            #[trigger] str_views(r@).contains(y) <==> batch_candidates(str_views(batch@), cwd@).contains(y),
{
    let ghost bv = str_views(batch@);
    let mut rels: Vec<Option<Vec<String>>> = Vec::new();
    let mut i: usize = 0;
    while i < batch.len()
        invariant
            i <= batch@.len(),
            bv == str_views(batch@),
            rels@.len() == i,
            forall|k: int| 0 <= k < i ==> #[trigger] rel_views(rels@)[k] == path_rel(bv[k], cwd@),
        decreases batch@.len() - i,
    {
        assert(bv[i as int] == batch@[i as int]@);
        let rel = match strip_path_prefix(batch[i].as_str(), cwd) {
            None => None,
            Some(rel) => Some(path_components(rel.as_str())),
        };
        let ghost rv = rel_views(seq![rel])[0];
        assert(rv == path_rel(bv[i as int], cwd@));
        let ghost before = rels@;
        rels.push(rel);
        assert(rel_views(rels@)[i as int] == rv);
        assert forall|k: int| 0 <= k < i + 1 implies #[trigger] rel_views(rels@)[k] == path_rel(bv[k], cwd@) by {
            if k < i {
                assert(rels@[k] == before[k]);
                assert(rel_views(rels@)[k] == rel_views(before)[k]);
            }
        }
        i = i + 1;
    }
    proof {
        assert(rel_views(rels@) =~= batch_rels(bv, cwd@));
        lemma_batch_rels(bv, cwd@);
    }
    stale_dirs(&rels)
}

proof fn lemma_contains_concat(a: Seq<Seq<char>>, b: Seq<Seq<char>>)
    ensures
        forall|y: Seq<char>| #[trigger] (a + b).contains(y) <==> (a.contains(y) || b.contains(y)),
{
    assert forall|y: Seq<char>| #[trigger] (a + b).contains(y) <==> (a.contains(y) || b.contains(y)) by {
        if (a + b).contains(y) {
            let k = choose|k: int| 0 <= k < (a + b).len() && (a + b)[k] == y;
            if k < a.len() {
                assert(a[k] == y);
            } else {
                assert(b[k - a.len()] == y);
            }
        }
        if a.contains(y) {
            let k = choose|k: int| 0 <= k < a.len() && a[k] == y;
            assert((a + b)[k] == y);
        }
        if b.contains(y) {
            let k = choose|k: int| 0 <= k < b.len() && b[k] == y;
            assert((a + b)[a.len() + k] == y);
        }
    }
}

} // verus!

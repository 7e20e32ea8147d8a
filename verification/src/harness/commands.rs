//! The decisions of the command surface: what a rename, a model change,
//! a restore or a header rewrite refuses, the parent session of a child
//! handle, the page of a file read, the merged session listing, and the
//! children that archive with their parent.

use crate::text::{
    append_str, chars_of, is_blank, join, join_chars, push_decimal, slice_vec, starts_with, starts_with_exec, string_of,
    trim,
};
use crate::text::{lemma_text_lt_irrefl, lemma_text_lt_total, lemma_text_lt_trans, text_lt, text_lt_exec};
use vstd::utf8::encode_utf8;
use vstd::prelude::*;

verus! {

/// The longest title a session header takes, in characters.
pub const MAX_TITLE_LEN: usize = 200;

/// The refusal of a title over the cap, naming its length and the cap.
pub open spec fn title_refusal_of(title: Seq<char>) -> Option<Seq<char>> {
    if title.len() > MAX_TITLE_LEN {
        Some("title is "@ + crate::text::decimal(title.len()) + " characters — the maximum is 200"@)
    } else {
        None
    }
}

/// Why a title is refused (a rename, or a new session's explicit title):
/// it has more than `MAX_TITLE_LEN` characters.
pub fn title_refusal(title: &str) -> (r: Option<String>)
    ensures
        match (r, title_refusal_of(title@)) {
            (Some(m), Some(t)) => m@ == t,
            (None, None) => true,
            _ => false,
        },
{
    let v = chars_of(title);
    if v.len() <= MAX_TITLE_LEN {
        return None;
    }
    let mut m = chars_of("title is ");
    push_decimal(&mut m, v.len() as u64);
    append_str(&mut m, " characters — the maximum is 200");
    Some(string_of(&m))
}

/// The title a new session keeps: an explicit one that is not blank; a
/// blank or missing one leaves the session to a fresh name.
pub fn explicit_title(title: Option<&str>) -> (r: Option<String>)
    ensures
        match title {
            Some(t) => if trim(t@).len() > 0 {
                r matches Some(s) && s@ == t@
            } else {
                r is None
            },
            None => r is None,
        },
{
    match title {
        Some(t) => {
            let v = chars_of(t);
            if is_blank(&v) {
                None
            } else {
                Some(string_of(&v))
            }
        },
        None => None,
    }
}

/// A model change: refused when the model is blank (`model is empty`),
/// nothing to do when it is the current one (`false`), a change to
/// record otherwise (`true`).
pub fn model_change(current: Option<&str>, model: &str) -> (r: Result<bool, String>)
    ensures
        trim(model@).len() == 0 ==> (r matches Err(m) && m@ == "model is empty"@),
        trim(model@).len() > 0 ==> (r matches Ok(b) && b == !(current matches Some(c) && c@ == model@)),
{
    let v = chars_of(model);
    if is_blank(&v) {
        return Err(String::from_str("model is empty"));
    }
    match current {
        Some(c) => {
            let cv = chars_of(c);
            Ok(!crate::text::chars_eq(&cv, &v))
        },
        None => Ok(true),
    }
}

/// A header rewrite that a turn started in the middle of.
#[derive(Debug, Clone, Copy, PartialEq, Eq)]
pub enum RacedRewrite {
    Renaming,
    Branching,
    Deleting,
}

pub open spec fn raced_word(w: RacedRewrite) -> Seq<char> {
    match w {
        RacedRewrite::Renaming => "renaming"@,
        RacedRewrite::Branching => "branching"@,
        RacedRewrite::Deleting => "deleting"@,
    }
}

/// The refusal of a rewrite whose session started a turn between the
/// first check and the write.
pub fn raced_refusal(session: &str, rewrite: RacedRewrite) -> (r: String)
    ensures
        r@ == "session "@ + session@ + " started a turn while "@ + raced_word(rewrite) + " — stop it and retry"@,
{
    let mut m = chars_of("session ");
    append_str(&mut m, session);
    append_str(&mut m, " started a turn while ");
    match rewrite {
        RacedRewrite::Renaming => append_str(&mut m, "renaming"),
        RacedRewrite::Branching => append_str(&mut m, "branching"),
        RacedRewrite::Deleting => append_str(&mut m, "deleting"),
    }
    append_str(&mut m, " — stop it and retry");
    string_of(&m)
}

/// The refusal of an archive whose child session has a turn in flight.
pub fn child_running_refusal(child: &str) -> (r: String)
    ensures
        r@ == "child session "@ + child@ + " is running — stop it first"@,
{
    let mut m = chars_of("child session ");
    append_str(&mut m, child);
    append_str(&mut m, " is running — stop it first");
    string_of(&m)
}

/// Why a restore is refused: there is no archive, or the session already
/// has a live file.
pub fn restore_refusal(session: &str, archive_exists: bool, live_exists: bool) -> (r: Option<String>)
    ensures
        !archive_exists ==> (r matches Some(m) && m@ == "no archive for session "@ + session@),
        archive_exists && live_exists ==> (r matches Some(m) && m@ == "session "@ + session@
            + " already has a live file"@),
        archive_exists && !live_exists ==> r is None,
{
    if !archive_exists {
        let mut m = chars_of("no archive for session ");
        append_str(&mut m, session);
        return Some(string_of(&m));
    }
    if live_exists {
        let mut m = chars_of("session ");
        append_str(&mut m, session);
        append_str(&mut m, " already has a live file");
        return Some(string_of(&m));
    }
    None
}

/// The position of the last `-` of a handle.
pub open spec fn last_dash(h: Seq<char>) -> Option<int>
    decreases h.len(),
{
    if h.len() == 0 {
        None
    } else if h.last() == '-' {
        Some(h.len() - 1)
    } else {
        last_dash(h.drop_last())
    }
}

/// The session a child handle (`<parent-session>-<n>`) belongs to: the
/// text before its last `-`; empty when it has none.
pub open spec fn handle_parent_of(h: Seq<char>) -> Seq<char> {
    match last_dash(h) {
        Some(i) => h.take(i),
        None => Seq::empty(),
    }
}

/// The parent session of a child handle.
pub fn handle_parent(handle: &str) -> (r: String)
    ensures
        r@ == handle_parent_of(handle@),
{
    let v = chars_of(handle);
    let mut n = v.len();
    assert(v@.take(n as int) =~= v@);
    while n > 0
        invariant
            n <= v@.len(),
            v@ == handle@,
            last_dash(v@) == last_dash(v@.take(n as int)),
        decreases n,
    {
        assert(v@.take(n as int).drop_last() =~= v@.take(n - 1));
        if v[n - 1] == '-' {
            assert(last_dash(v@) == Some(n - 1));
            let mut out: Vec<char> = Vec::new();
            let mut i: usize = 0;
            while i < n - 1
                invariant
                    i <= n - 1,
                    n <= v@.len(),
                    out@ == v@.take(i as int),
                    last_dash(v@) == Some(n - 1),
                decreases n - 1 - i,
            {
                out.push(v[i]);
                assert(v@.take(i as int).push(v@[i as int]) =~= v@.take(i + 1));
                i = i + 1;
            }
            return string_of(&out);
        }
        n = n - 1;
    }
    assert(v@.take(0) =~= Seq::<char>::empty());
    String::new()
}

/// Does a task tool's output report its refusal (it starts with the
/// tool's name and a colon)?
pub fn tool_refused(output: &str, tool: &str) -> (r: bool)
    ensures
        r == starts_with(output@, tool@ + ":"@),
{
    let o = chars_of(output);
    let mut p = chars_of(tool);
    p.push(':');
    proof {
        reveal_strlit(":");
        assert(p@ =~= tool@ + ":"@);
    }
    starts_with_exec(&o, &p)
}

/// The most bytes a file read returns, each line counted with its newline.
pub const FILE_READ_CAP: usize = 1_000_000;

/// A page of a text file: the lines joined with newlines, and whether the
/// byte cap cut the file short.
#[derive(Debug)]
pub struct FilePage {
    pub text: String,
    pub truncated: bool,
}

/// A line without one trailing carriage return.
pub open spec fn strip_cr(l: Seq<char>) -> Seq<char> {
    if l.len() > 0 && l.last() == '\r' {
        l.drop_last()
    } else {
        l
    }
}

/// What a line costs against the cap: its UTF-8 bytes and a newline.
pub open spec fn line_cost(l: Seq<char>) -> nat {
    encode_utf8(strip_cr(l)).len() + 1
}

/// What the first `k` lines cost.
pub open spec fn cost_upto(ls: Seq<Seq<char>>, k: int) -> nat
    decreases k,
{
    if k <= 0 {
        0
    } else {
        cost_upto(ls, k - 1) + line_cost(ls[k - 1])
    }
}

/// From line `k` on, the number of leading lines within the cap: the
/// first line whose cost would pass the cap, or all of them.
pub open spec fn admitted_from(ls: Seq<Seq<char>>, k: int) -> int
    decreases ls.len() - k,
{
    if k >= ls.len() {
        ls.len() as int
    } else if cost_upto(ls, k + 1) > FILE_READ_CAP {
        k
    } else {
        admitted_from(ls, k + 1)
    }
}

/// The number of leading lines a read admits.
pub open spec fn admitted(ls: Seq<Seq<char>>) -> int {
    admitted_from(ls, 0)
}

/// The lines of a page: the admitted lines from `start` on, at most
/// `limit` of them, each without its carriage return.
pub open spec fn page_of(ls: Seq<Seq<char>>, start: int, limit: int) -> Seq<Seq<char>> {
    let n = admitted(ls);
    let hi = if n < start + limit {
        n
    } else {
        start + limit
    };
    if hi <= start {
        Seq::empty()
    } else {
        Seq::new((hi - start) as nat, |j: int| strip_cr(ls[start + j]))
    }
}

pub open spec fn line_views(lines: Seq<String>) -> Seq<Seq<char>> {
    lines.map_values(|l: String| l@)
}

/// A page of a file read from its lines (as a line reader yields them):
/// the lines after `offset`, at most `limit` of them, joined with
/// newlines. The read stops at the first line that would bring the bytes
/// read (each line with its newline) past `FILE_READ_CAP`, and only that
/// stop marks the page truncated; a short file is not truncation.
pub fn file_page(lines: &[String], offset: Option<usize>, limit: Option<usize>) -> (r: FilePage)
    ensures
        ({
            let ls = line_views(lines@);
            let start = match offset {
                Some(o) => o as int,
                None => 0,
            };
            let lim = match limit {
                Some(l) => l as int,
                None => usize::MAX as int,
            };
            &&& r.text@ == join(page_of(ls, start, lim), "\n"@)
            &&& r.truncated == (admitted(ls) < ls.len())
        }),
{
    let start: usize = match offset {
        Some(o) => o,
        None => 0,
    };
    let lim: usize = match limit {
        Some(l) => l,
        None => usize::MAX,
    };
    let ghost ls = line_views(lines@);
    let mut bytes: usize = 0;
    let mut taken: Vec<Vec<char>> = Vec::new();
    let mut truncated = false;
    let mut i: usize = 0;
    while i < lines.len() && !truncated
        invariant
            ls == line_views(lines@),
            i <= lines@.len(),
            bytes == cost_upto(ls, i as int),
            bytes <= FILE_READ_CAP,
            !truncated ==> admitted_from(ls, i as int) == admitted(ls),
            truncated ==> admitted(ls) == i && i < lines@.len(),
            taken@.len() == (if i <= start {
                0
            } else if i - start < lim {
                i - start
            } else {
                lim as int
            }),
            forall|j: int| 0 <= j < taken@.len() ==> #[trigger] taken@[j]@ == strip_cr(ls[start + j]),
        decreases lines@.len() - i + (if truncated { 0int } else { 1int }),
    {
        let v = chars_of(lines[i].as_str());
        let l = if v.len() > 0 && v[v.len() - 1] == '\r' {
            slice_vec(&v, 0, v.len() - 1)
        } else {
            slice_vec(&v, 0, v.len())
        };
        assert(ls[i as int] == lines@[i as int]@);
        assert(l@ == strip_cr(ls[i as int])) by {
            if v@.len() > 0 && v@.last() == '\r' {
                assert(v@.subrange(0, v@.len() - 1) =~= v@.drop_last());
            } else {
                assert(v@.subrange(0, v@.len() as int) =~= v@);
            }
        }
        let s = string_of(&l);
        let len = s.as_str().as_bytes().len();
        assert(cost_upto(ls, i + 1) == bytes + len + 1);
        if len >= FILE_READ_CAP - bytes {
            truncated = true;
        } else {
            bytes = bytes + len + 1;
            if i >= start && taken.len() < lim {
                taken.push(l);
            }
            i = i + 1;
        }
    }
    let ghost n = admitted(ls);
    assert(n == i);
    let ghost page = page_of(ls, start as int, lim as int);
    assert(taken@.map_values(|p: Vec<char>| p@) =~= page);
    let mut nl: Vec<char> = Vec::new();
    nl.push('\n');
    let text = join_chars(&taken, &nl);
    proof {
        reveal_strlit("\n");
        assert(nl@ =~= "\n"@);
    }
    assert(text@ == join(page, "\n"@));
    assert(truncated == (admitted(ls) < ls.len()));
    FilePage { text: string_of(&text), truncated }
}

/// A listed session as the listing orders it: its id and creation time.
pub open spec fn listing_views(v: Seq<(String, u64)>) -> Seq<(Seq<char>, u64)> {
    v.map_values(|e: (String, u64)| (e.0@, e.1))
}

pub open spec fn pair_views(v: Seq<(Vec<char>, u64)>) -> Seq<(Seq<char>, u64)> {
    v.map_values(|e: (Vec<char>, u64)| (e.0@, e.1))
}

pub open spec fn has_id(s: Seq<(Seq<char>, u64)>, id: Seq<char>) -> bool {
    exists|j: int| 0 <= j < s.len() && #[trigger] s[j].0 == id
}

/// The live sessions, then each session found on disk whose id is not
/// listed yet (the live copy wins, and a session found twice on disk is
/// listed once).
pub open spec fn merged_upto(live: Seq<(Seq<char>, u64)>, disk: Seq<(Seq<char>, u64)>, k: int) -> Seq<(Seq<char>, u64)>
    decreases k,
{
    if k <= 0 {
        live
    } else {
        let prev = merged_upto(live, disk, k - 1);
        if has_id(prev, disk[k - 1].0) {
            prev
        } else {
            prev.push(disk[k - 1])
        }
    }
}

/// The first position of a newest-first list whose session is older
/// than `created`, from `i` on (the list's length when there is none).
pub open spec fn first_older(s: Seq<(Seq<char>, u64)>, created: u64, i: int) -> int
    decreases s.len() - i,
{
    if i >= s.len() {
        s.len() as int
    } else if s[i].1 < created {
        i
    } else {
        first_older(s, created, i + 1)
    }
}

/// Newest first, sessions created at the same time in their listed
/// order: each session goes before the first older one of those placed
/// before it.
pub open spec fn newest_first(s: Seq<(Seq<char>, u64)>) -> Seq<(Seq<char>, u64)>
    decreases s.len(),
{
    if s.len() == 0 {
        s
    } else {
        let sorted = newest_first(s.drop_last());
        sorted.insert(first_older(sorted, s.last().1, 0), s.last())
    }
}

/// The session listing of a workspace: the ids of the live sessions and
/// of those found on disk (`live` wins on a shared id), newest first,
/// ties in that order.
pub fn session_listing(live: &[(String, u64)], disk: &[(String, u64)]) -> (r: Vec<String>)
    ensures
        r@.map_values(|s: String| s@) == newest_first(
            merged_upto(listing_views(live@), listing_views(disk@), disk@.len() as int),
        ).map_values(|e: (Seq<char>, u64)| e.0),
{
    let ghost lv = listing_views(live@);
    let ghost dv = listing_views(disk@);
    let mut merged: Vec<(Vec<char>, u64)> = Vec::new();
    let mut i: usize = 0;
    while i < live.len()
        invariant
            i <= live@.len(),
            lv == listing_views(live@),
            merged@.len() == i,
            forall|j: int| 0 <= j < i ==> #[trigger] merged@[j].0@ == lv[j].0 && merged@[j].1 == lv[j].1,
        decreases live@.len() - i,
    {
        merged.push((chars_of(live[i].0.as_str()), live[i].1));
        i = i + 1;
    }
    assert(pair_views(merged@) =~= merged_upto(lv, dv, 0));
    let mut k: usize = 0;
    while k < disk.len()
        invariant
            k <= disk@.len(),
            dv == listing_views(disk@),
            pair_views(merged@) == merged_upto(lv, dv, k as int),
        decreases disk@.len() - k,
    {
        let id = chars_of(disk[k].0.as_str());
        assert(dv[k as int].0 == id@);
        let mut found = false;
        let mut j: usize = 0;
        while j < merged.len() && !found
            invariant
                j <= merged@.len(),
                found ==> has_id(pair_views(merged@), id@),
                !found ==> forall|x: int| 0 <= x < j ==> #[trigger] pair_views(merged@)[x].0 != id@,
            decreases merged@.len() - j + (if found { 0int } else { 1int }),
        {
            if crate::text::chars_eq(&merged[j].0, &id) {
                assert(pair_views(merged@)[j as int].0 == id@);
                found = true;
            } else {
                j = j + 1;
            }
        }
        let ghost prev = pair_views(merged@);
        if !found {
            merged.push((id, disk[k].1));
            assert(pair_views(merged@) =~= prev.push(dv[k as int]));
        }
        k = k + 1;
    }
    let ghost m = pair_views(merged@);
    let mut out: Vec<(Vec<char>, u64)> = Vec::new();
    let mut n: usize = 0;
    assert(m.take(0) =~= Seq::<(Seq<char>, u64)>::empty());
    while n < merged.len()
        invariant
            n <= merged@.len(),
            m == pair_views(merged@),
            pair_views(out@) == newest_first(m.take(n as int)),
        decreases merged@.len() - n,
    {
        let created = merged[n].1;
        let ghost sorted = pair_views(out@);
        let mut p: usize = 0;
        while p < out.len() && !(out[p].1 < created)
            invariant
                p <= out@.len(),
                sorted == pair_views(out@),
                first_older(sorted, created, 0) == first_older(sorted, created, p as int),
            decreases out@.len() - p,
        {
            p = p + 1;
        }
        let entry = (slice_vec(&merged[n].0, 0, merged[n].0.len()), created);
        assert(merged[n as int].0@.subrange(0, merged[n as int].0@.len() as int) =~= merged[n as int].0@);
        out.insert(p, entry);
        assert(m.take(n + 1).drop_last() =~= m.take(n as int));
        assert(pair_views(out@) =~= sorted.insert(p as int, m[n as int]));
        n = n + 1;
    }
    assert(m.take(merged@.len() as int) =~= m);
    let mut r: Vec<String> = Vec::new();
    let mut q: usize = 0;
    while q < out.len()
        invariant
            q <= out@.len(),
            r@.len() == q,
            forall|x: int| 0 <= x < q ==> #[trigger] r@[x]@ == out@[x].0@,
        decreases out@.len() - q,
    {
        r.push(string_of(&out[q].0));
        q = q + 1;
    }
    assert(r@.map_values(|s: String| s@) =~= newest_first(m).map_values(|e: (Seq<char>, u64)| e.0));
    r
}

/// Newest first: no session before an older one.
pub open spec fn is_newest_first(s: Seq<(Seq<char>, u64)>) -> bool {
    forall|i: int, j: int| 0 <= i < j < s.len() ==> #[trigger] s[i].1 >= #[trigger] s[j].1
}

proof fn lemma_first_older(s: Seq<(Seq<char>, u64)>, created: u64, i: int)
    requires
        0 <= i <= s.len(),
    ensures
        i <= first_older(s, created, i) <= s.len(),
        forall|a: int| i <= a < first_older(s, created, i) ==> s[a].1 >= created,
        first_older(s, created, i) < s.len() ==> s[first_older(s, created, i)].1 < created,
    decreases s.len() - i,
{
    if i < s.len() && s[i].1 >= created {
        lemma_first_older(s, created, i + 1);
    }
}

proof fn lemma_newest_first(s: Seq<(Seq<char>, u64)>)
    ensures
        is_newest_first(newest_first(s)),
        newest_first(s).to_multiset() == s.to_multiset(),
    decreases s.len(),
{
    broadcast use vstd::seq_lib::to_multiset_insert, vstd::seq_lib::to_multiset_build;

    if s.len() > 0 {
        let x = s.last();
        let sorted = newest_first(s.drop_last());
        lemma_newest_first(s.drop_last());
        lemma_first_older(sorted, x.1, 0);
        let k = first_older(sorted, x.1, 0);
        let l = sorted.insert(k, x);
        assert forall|i: int, j: int| 0 <= i < j < l.len() implies #[trigger] l[i].1 >= #[trigger] l[j].1 by {
            if j < k {
            } else if j == k {
            } else if i < k {
                assert(l[j] == sorted[j - 1]);
                if k < sorted.len() {
                    assert(sorted[k].1 >= sorted[j - 1].1);
                }
            } else if i == k {
                assert(l[j] == sorted[j - 1]);
                assert(sorted[k].1 >= sorted[j - 1].1);
            } else {
                assert(l[i] == sorted[i - 1] && l[j] == sorted[j - 1]);
            }
        }
        assert(s.drop_last().push(x) =~= s);
    }
}

proof fn lemma_merged_ids(live: Seq<(Seq<char>, u64)>, disk: Seq<(Seq<char>, u64)>, k: int, id: Seq<char>)
    requires
        0 <= k <= disk.len(),
    ensures
        has_id(merged_upto(live, disk, k), id) <==> (has_id(live, id) || has_id(disk.take(k), id)),
    decreases k,
{
    if k > 0 {
        lemma_merged_ids(live, disk, k - 1, id);
        let prev = merged_upto(live, disk, k - 1);
        assert(disk.take(k).drop_last() =~= disk.take(k - 1));
        if has_id(disk.take(k), id) {
            let j = choose|j: int| 0 <= j < disk.take(k).len() && #[trigger] disk.take(k)[j].0 == id;
            if j < k - 1 {
                assert(disk.take(k - 1)[j].0 == id);
            } else if !has_id(prev, id) && !has_id(prev, disk[k - 1].0) {
                assert(prev.push(disk[k - 1])[prev.len() as int].0 == id);
            }
        }
        if has_id(merged_upto(live, disk, k), id) && !has_id(prev, id) {
            assert(disk.take(k)[k - 1] == disk[k - 1]);
        }
        if has_id(prev, id) && !has_id(prev, disk[k - 1].0) {
            let j = choose|j: int| 0 <= j < prev.len() && #[trigger] prev[j].0 == id;
            assert(prev.push(disk[k - 1])[j].0 == id);
        }
        if has_id(disk.take(k - 1), id) {
            let j = choose|j: int| 0 <= j < disk.take(k - 1).len() && #[trigger] disk.take(k - 1)[j].0 == id;
            assert(disk.take(k)[j].0 == id);
        }
    } else {
        assert(!has_id(disk.take(0), id));
    }
}

/// The session listing holds the live sessions and those found on disk:
/// an id is listed exactly when a live session or one on disk has it; it
/// is newest first; and it holds the merged sessions, each as often as
/// the merge does.
pub proof fn lemma_listing_holds_every_session(live: Seq<(Seq<char>, u64)>, disk: Seq<(Seq<char>, u64)>)
    ensures
        ({
            let m = merged_upto(live, disk, disk.len() as int);
            let l = newest_first(m);
            &&& is_newest_first(l)
            &&& l.to_multiset() == m.to_multiset()
            &&& forall|id: Seq<char>| has_id(l, id) <==> (has_id(live, id) || has_id(disk, id))
        }),
{
    broadcast use vstd::seq_lib::to_multiset_contains;

    let m = merged_upto(live, disk, disk.len() as int);
    let l = newest_first(m);
    lemma_newest_first(m);
    assert(disk.take(disk.len() as int) =~= disk);
    assert forall|id: Seq<char>| has_id(l, id) <==> (has_id(live, id) || has_id(disk, id)) by {
        lemma_merged_ids(live, disk, disk.len() as int, id);
        if has_id(l, id) {
            let j = choose|j: int| 0 <= j < l.len() && #[trigger] l[j].0 == id;
            assert(l.contains(l[j]));
            assert(l.to_multiset().count(l[j]) > 0);
            assert(m.contains(l[j]));
            let i = choose|i: int| 0 <= i < m.len() && m[i] == l[j];
            assert(m[i].0 == id);
        }
        if has_id(m, id) {
            let i = choose|i: int| 0 <= i < m.len() && #[trigger] m[i].0 == id;
            assert(m.contains(m[i]));
            assert(m.to_multiset().count(m[i]) > 0);
            assert(l.contains(m[i]));
            let j = choose|j: int| 0 <= j < l.len() && l[j] == m[i];
            assert(l[j].0 == id);
        }
    }
}

/// Strictly ascending by the order of `str`: sorted, no text twice.
pub open spec fn ascending(s: Seq<Seq<char>>) -> bool {
    forall|i: int, j: int| 0 <= i < j < s.len() ==> text_lt(#[trigger] s[i], #[trigger] s[j])
}

pub open spec fn char_views(v: Seq<Vec<char>>) -> Seq<Seq<char>> {
    v.map_values(|x: Vec<char>| x@)
}

/// Adds `x` to an ascending set of texts.
fn set_insert(v: &mut Vec<Vec<char>>, x: Vec<char>)
    requires
        ascending(char_views(old(v)@)),
    ensures
        ascending(char_views(final(v)@)),
        forall|y: Seq<char>| #[trigger] char_views(final(v)@).contains(y) <==> (char_views(old(v)@).contains(y) || y == x@),
{
    let ghost s = char_views(v@);
    let mut p: usize = 0;
    while p < v.len() && text_lt_exec(&v[p], &x)
        invariant
            p <= v@.len(),
            s == char_views(v@),
            forall|a: int| 0 <= a < p ==> text_lt(#[trigger] s[a], x@),
        decreases v@.len() - p,
    {
        p = p + 1;
    }
    if p < v.len() && crate::text::chars_eq(&v[p], &x) {
        assert(s[p as int] == x@);
        return;
    }
    proof {
        if p < s.len() {
            lemma_text_lt_total(s[p as int], x@);
            assert(text_lt(x@, s[p as int]));
        }
    }
    let ghost xv = x@;
    v.insert(p, x);
    let ghost t = char_views(v@);
    assert(t =~= s.insert(p as int, xv));
    assert forall|i: int, j: int| 0 <= i < j < t.len() implies text_lt(#[trigger] t[i], #[trigger] t[j]) by {
        if j < p {
        } else if j == p {
        } else if i < p {
            assert(t[j] == s[j - 1]);
            lemma_text_lt_trans(s[i], xv, s[p as int]);
            if j - 1 > p {
                lemma_text_lt_trans(s[i], s[p as int], s[j - 1]);
            }
        } else if i == p {
            if j - 1 > p {
                lemma_text_lt_trans(xv, s[p as int], s[j - 1]);
            }
        } else {
        }
    }
    assert forall|y: Seq<char>| #[trigger] t.contains(y) <==> (s.contains(y) || y == xv) by {
        if t.contains(y) {
            let i = choose|i: int| 0 <= i < t.len() && t[i] == y;
            if i < p {
                assert(s[i] == y);
            } else if i > p {
                assert(s[i - 1] == y);
            }
        }
        if s.contains(y) {
            let i = choose|i: int| 0 <= i < s.len() && s[i] == y;
            if i < p {
                assert(t[i] == y);
            } else {
                assert(t[i + 1] == y);
            }
        }
        if y == xv {
            assert(t[p as int] == y);
        }
    }
}

/// Removes `x` from an ascending set of texts.
fn set_remove(v: &mut Vec<Vec<char>>, x: &[char])
    requires
        ascending(char_views(old(v)@)),
    ensures
        ascending(char_views(final(v)@)),
        forall|y: Seq<char>| #[trigger] char_views(final(v)@).contains(y) <==> (char_views(old(v)@).contains(y) && y != x@),
{
    let ghost s = char_views(v@);
    let mut p: usize = 0;
    while p < v.len() && !crate::text::chars_eq(&v[p], x)
        invariant
            p <= v@.len(),
            s == char_views(v@),
            forall|a: int| 0 <= a < p ==> #[trigger] s[a] != x@,
        decreases v@.len() - p,
    {
        p = p + 1;
    }
    if p == v.len() {
        assert forall|y: Seq<char>| #[trigger] s.contains(y) implies y != x@ by {
            let i = choose|i: int| 0 <= i < s.len() && s[i] == y;
        }
        return;
    }
    v.remove(p);
    let ghost t = char_views(v@);
    assert(t =~= s.remove(p as int));
    assert forall|i: int, j: int| 0 <= i < j < t.len() implies text_lt(#[trigger] t[i], #[trigger] t[j]) by {
        if j < p {
        } else if i < p {
            assert(t[j] == s[j + 1]);
        } else {
            assert(t[i] == s[i + 1] && t[j] == s[j + 1]);
        }
    }
    assert forall|y: Seq<char>| #[trigger] t.contains(y) <==> (s.contains(y) && y != x@) by {
        if t.contains(y) {
            let i = choose|i: int| 0 <= i < t.len() && t[i] == y;
            if i < p {
                assert(s[i] == y);
                assert(text_lt(s[i], s[p as int]));
                lemma_text_lt_irrefl(y);
            } else {
                assert(s[i + 1] == y);
                assert(text_lt(s[p as int], s[i + 1]));
                lemma_text_lt_irrefl(y);
            }
        }
        if s.contains(y) && y != x@ {
            let i = choose|i: int| 0 <= i < s.len() && s[i] == y;
            if i < p {
                assert(t[i] == y);
            } else {
                assert(i != p);
                assert(t[i - 1] == y);
            }
        }
    }
}

/// Does the session have `session` for its parent?
fn parent_is(parent: &Option<String>, session: &[char]) -> (r: bool)
    ensures
        r == (parent matches Some(p) && p@ == session@),
{
    match parent {
        Some(p) => crate::text::chars_eq(&chars_of(p.as_str()), session),
        None => false,
    }
}

pub open spec fn child_views(v: Seq<(String, Option<String>, bool)>) -> Seq<(Seq<char>, Option<Seq<char>>, bool)> {
    v.map_values(|e: (String, Option<String>, bool)| (e.0@, crate::session::opt_str(e.1), e.2))
}

/// The first supervised child whose run is going.
pub open spec fn first_running(sup: Seq<(Seq<char>, bool)>, i: int) -> Option<int>
    decreases sup.len() - i,
{
    if i >= sup.len() || i < 0 {
        None
    } else if sup[i].1 {
        Some(i)
    } else {
        first_running(sup, i + 1)
    }
}

/// Whether the last of the first `k` sessions on disk that is a child of
/// `session` with the id `x` is archived (`None` when there is none).
pub open spec fn listed_archived(
    listed: Seq<(Seq<char>, Option<Seq<char>>, bool)>,
    session: Seq<char>,
    k: int,
    x: Seq<char>,
) -> Option<bool>
    decreases k,
{
    if k <= 0 {
        None
    } else if listed[k - 1].1 == Some(session) && listed[k - 1].0 == x {
        Some(listed[k - 1].2)
    } else {
        listed_archived(listed, session, k - 1, x)
    }
}

/// Is `x` a child that archives with `session`: as the sessions on disk
/// last list it (a child already archived stays so), else when the
/// supervisor holds it or a live session names `session` its parent.
pub open spec fn archives_with(
    session: Seq<char>,
    sup: Seq<(Seq<char>, bool)>,
    live: Seq<(Seq<char>, Option<Seq<char>>, bool)>,
    listed: Seq<(Seq<char>, Option<Seq<char>>, bool)>,
    x: Seq<char>,
) -> bool {
    match listed_archived(listed, session, listed.len() as int, x) {
        Some(archived) => !archived,
        None => (exists|i: int| 0 <= i < sup.len() && #[trigger] sup[i].0 == x) || (exists|i: int|
            0 <= i < live.len() && #[trigger] live[i].0 == x && live[i].1 == Some(session)),
    }
}

/// The first live session with the id `x`.
pub open spec fn first_live(live: Seq<(Seq<char>, Option<Seq<char>>, bool)>, x: Seq<char>, i: int) -> Option<int>
    decreases live.len() - i,
{
    if i >= live.len() || i < 0 {
        None
    } else if live[i].0 == x {
        Some(i)
    } else {
        first_live(live, x, i + 1)
    }
}

/// Has the live session `x` a turn in flight?
pub open spec fn turn_in_flight(live: Seq<(Seq<char>, Option<Seq<char>>, bool)>, x: Seq<char>) -> bool {
    match first_live(live, x, 0) {
        Some(i) => live[i].2,
        None => false,
    }
}

/// The first child of an ascending list with a turn in flight.
pub open spec fn first_busy(c: Seq<Seq<char>>, live: Seq<(Seq<char>, Option<Seq<char>>, bool)>, i: int) -> Option<int>
    decreases c.len() - i,
{
    if i >= c.len() || i < 0 {
        None
    } else if turn_in_flight(live, c[i]) {
        Some(i)
    } else {
        first_busy(c, live, i + 1)
    }
}

pub open spec fn sup_views(v: Seq<(String, bool)>) -> Seq<(Seq<char>, bool)> {
    v.map_values(|e: (String, bool)| (e.0@, e.1))
}

/// The children that archive with `session`, ascending, or the refusal:
/// a supervised child whose run is going refuses first (the first in
/// the supervisor's order), then a child with a turn in flight (the
/// first in ascending order). The children are those the supervisor
/// holds, the live sessions with `session` for parent, and the sessions
/// on disk with it, where one already archived on disk stays archived
/// and is not among them.
pub fn archive_children(
    session: &str,
    supervised: &[(String, bool)],
    live: &[(String, Option<String>, bool)],
    listed: &[(String, Option<String>, bool)],
) -> (r: Result<Vec<String>, String>)
    ensures
        ({
            let sup = sup_views(supervised@);
            let lv = child_views(live@);
            let ld = child_views(listed@);
            match first_running(sup, 0) {
                Some(i) => r matches Err(m) && m@ == "child session "@ + sup[i].0 + " is running — stop it first"@,
                None => exists|c: Seq<Seq<char>>|
                    {
                        &&& ascending(c)
                        &&& forall|x: Seq<char>| #[trigger] c.contains(x) <==> archives_with(session@, sup, lv, ld, x)
                        &&& match first_busy(c, lv, 0) {
                            Some(k) => r matches Err(m) && m@ == "child session "@ + c[k] + " is running — stop it first"@,
                            None => r matches Ok(v) && v@.map_values(|s: String| s@) == c,
                        }
                    },
            }
        }),
{
    let ghost sup = sup_views(supervised@);
    let ghost lv = child_views(live@);
    let ghost ld = child_views(listed@);
    let sv = chars_of(session);
    let mut set: Vec<Vec<char>> = Vec::new();
    let mut i: usize = 0;
    while i < supervised.len()
        invariant
            i <= supervised@.len(),
            sup == sup_views(supervised@),
            first_running(sup, 0) == first_running(sup, i as int),
            ascending(char_views(set@)),
            forall|y: Seq<char>| #[trigger] char_views(set@).contains(y) <==> exists|a: int| 0 <= a < i && #[trigger] sup[a].0 == y,
        decreases supervised@.len() - i,
    {
        if supervised[i].1 {
            return Err(child_running_refusal(supervised[i].0.as_str()));
        }
        let ghost before = char_views(set@);
        set_insert(&mut set, chars_of(supervised[i].0.as_str()));
        assert forall|y: Seq<char>| #[trigger] char_views(set@).contains(y) <==> exists|a: int| 0 <= a < i + 1 && #[trigger] sup[a].0 == y by {
            if char_views(set@).contains(y) && y != sup[i as int].0 {
                assert(before.contains(y));
            }
            if exists|a: int| 0 <= a < i + 1 && #[trigger] sup[a].0 == y {
                let a = choose|a: int| 0 <= a < i + 1 && #[trigger] sup[a].0 == y;
                if a < i {
                    assert(before.contains(y));
                }
            }
        }
        i = i + 1;
    }
    let mut j: usize = 0;
    while j < live.len()
        invariant
            j <= live@.len(),
            lv == child_views(live@),
            sup == sup_views(supervised@),
            sv@ == session@,
            ascending(char_views(set@)),
            forall|y: Seq<char>| #[trigger] char_views(set@).contains(y) <==> ((exists|a: int| 0 <= a < sup.len() && #[trigger] sup[a].0 == y)
                || (exists|a: int| 0 <= a < j && #[trigger] lv[a].0 == y && lv[a].1 == Some(session@))),
        decreases live@.len() - j,
    {
        let ghost before = char_views(set@);
        if parent_is(&live[j].1, &sv) {
            set_insert(&mut set, chars_of(live[j].0.as_str()));
        }
        assert forall|y: Seq<char>| #[trigger] char_views(set@).contains(y) <==> ((exists|a: int| 0 <= a < sup.len() && #[trigger] sup[a].0 == y)
            || (exists|a: int| 0 <= a < j + 1 && #[trigger] lv[a].0 == y && lv[a].1 == Some(session@))) by {
            if exists|a: int| 0 <= a < j + 1 && #[trigger] lv[a].0 == y && lv[a].1 == Some(session@) {
                let a = choose|a: int| 0 <= a < j + 1 && #[trigger] lv[a].0 == y && lv[a].1 == Some(session@);
                if a < j {
                    assert(before.contains(y));
                }
            }
            if char_views(set@).contains(y) && !before.contains(y) {
                assert(lv[j as int].0 == y && lv[j as int].1 == Some(session@));
            }
        }
        j = j + 1;
    }
    let mut k: usize = 0;
    while k < listed.len()
        invariant
            k <= listed@.len(),
            ld == child_views(listed@),
            lv == child_views(live@),
            sup == sup_views(supervised@),
            sv@ == session@,
            ascending(char_views(set@)),
            forall|y: Seq<char>| #[trigger] char_views(set@).contains(y) <==> match listed_archived(ld, session@, k as int, y) {
                Some(archived) => !archived,
                None => (exists|a: int| 0 <= a < sup.len() && #[trigger] sup[a].0 == y) || (exists|a: int|
                    0 <= a < lv.len() && #[trigger] lv[a].0 == y && lv[a].1 == Some(session@)),
            },
        decreases listed@.len() - k,
    {
        if parent_is(&listed[k].1, &sv) {
            let id = chars_of(listed[k].0.as_str());
            if listed[k].2 {
                set_remove(&mut set, &id);
            } else {
                set_insert(&mut set, id);
            }
        }
        k = k + 1;
    }
    let ghost c = char_views(set@);
    assert forall|x: Seq<char>| #[trigger] c.contains(x) <==> archives_with(session@, sup, lv, ld, x) by {
    }
    let mut n: usize = 0;
    while n < set.len()
        invariant
            n <= set@.len(),
            c == char_views(set@),
            lv == child_views(live@),
            sup == sup_views(supervised@),
            ld == child_views(listed@),
            first_running(sup, 0) is None,
            ascending(c),
            forall|x: Seq<char>| #[trigger] c.contains(x) <==> archives_with(session@, sup, lv, ld, x),
            first_busy(c, lv, 0) == first_busy(c, lv, n as int),
        decreases set@.len() - n,
    {
        let mut q: usize = 0;
        let mut busy = false;
        let mut found = false;
        while q < live.len() && !found
            invariant
                q <= live@.len(),
                lv == child_views(live@),
                c == char_views(set@),
                n < set@.len(),
                !found ==> first_live(lv, c[n as int], 0) == first_live(lv, c[n as int], q as int),
                found ==> busy == turn_in_flight(lv, c[n as int]),
                !found ==> !busy,
            decreases live@.len() - q + (if found { 0int } else { 1int }),
        {
            if crate::text::chars_eq(&chars_of(live[q].0.as_str()), &set[n]) {
                found = true;
                busy = live[q].2;
            } else {
                q = q + 1;
            }
        }
        if busy {
            let name = string_of(&set[n]);
            let refusal = child_running_refusal(name.as_str());
            assert(first_busy(c, lv, 0) == Some(n as int));
            return Err(refusal);
        }
        n = n + 1;
    }
    let mut out: Vec<String> = Vec::new();
    let mut m: usize = 0;
    while m < set.len()
        invariant
            m <= set@.len(),
            c == char_views(set@),
            out@.len() == m,
            forall|x: int| 0 <= x < m ==> #[trigger] out@[x]@ == c[x],
        decreases set@.len() - m,
    {
        out.push(string_of(&set[m]));
        m = m + 1;
    }
    assert(out@.map_values(|s: String| s@) =~= c);
    Ok(out)
}

/// The refusal of an archive whose child's drive did not quiesce in time.
pub fn child_still_running_refusal(child: &str) -> (r: String)
    ensures
        r@ == "child session "@ + child@ + " is still running — stop it and retry"@,
{
    let mut m = chars_of("child session ");
    append_str(&mut m, child);
    append_str(&mut m, " is still running — stop it and retry");
    string_of(&m)
}

/// The refusal of an archive whose child started a turn while its
/// siblings were quiesced.
pub fn child_raced_refusal(child: &str) -> (r: String)
    ensures
        r@ == "child session "@ + child@ + " started a turn while archiving — stop it and retry"@,
{
    let mut m = chars_of("child session ");
    append_str(&mut m, child);
    append_str(&mut m, " started a turn while archiving — stop it and retry");
    string_of(&m)
}

/// The children of a closed session found on disk that archive with it:
/// those naming it their parent that are not archived yet, in the order
/// they were found.
pub open spec fn closed_children_of(session: Seq<char>, listed: Seq<(Seq<char>, Option<Seq<char>>, bool)>) -> Seq<
    Seq<char>,
>
    decreases listed.len(),
{
    if listed.len() == 0 {
        Seq::empty()
    } else {
        let prev = closed_children_of(session, listed.drop_last());
        let e = listed.last();
        if !e.2 && e.1 == Some(session) {
            prev.push(e.0)
        } else {
            prev
        }
    }
}

/// The children a closed session archives with, from the sessions found
/// on disk.
pub fn closed_children(session: &str, listed: &[(String, Option<String>, bool)]) -> (r: Vec<String>)
    ensures
        r@.map_values(|s: String| s@) == closed_children_of(session@, child_views(listed@)),
{
    let ghost ld = child_views(listed@);
    let sv = chars_of(session);
    let mut out: Vec<String> = Vec::new();
    let mut k: usize = 0;
    while k < listed.len()
        invariant
            k <= listed@.len(),
            ld == child_views(listed@),
            sv@ == session@,
            out@.map_values(|s: String| s@) == closed_children_of(session@, ld.take(k as int)),
        decreases listed@.len() - k,
    {
        assert(ld.take(k + 1).drop_last() =~= ld.take(k as int));
        let ghost before = out@.map_values(|s: String| s@);
        if !listed[k].2 && parent_is(&listed[k].1, &sv) {
            let id = listed[k].0.clone();
            out.push(id);
            assert(out@.map_values(|s: String| s@) =~= before.push(ld[k as int].0));
        }
        k = k + 1;
    }
    assert(ld.take(listed@.len() as int) =~= ld);
    out
}

/// The model a session runs: the first configured provider's first
/// model, unless the session's file noted a change of model. Without a
/// provider, or with one that lists no model, the session cannot be
/// built.
pub fn session_model(provider: Option<(&str, &[String])>, noted: Option<String>) -> (r: Result<String, String>)
    ensures
        match provider {
            None => r matches Err(m) && m@ == "no providers configured; add a [providers.x] section"@,
            Some((name, models)) => if models@.len() == 0 {
                r matches Err(m) && m@ == "provider "@ + name@ + " has no models"@
            } else {
                r matches Ok(model) && model@ == match noted {
                    Some(n) => n@,
                    None => models@[0]@,
                }
            },
        },
{
    match provider {
        None => Err(String::from_str("no providers configured; add a [providers.x] section")),
        Some((name, models)) => {
            if models.len() == 0 {
                let mut m = chars_of("provider ");
                append_str(&mut m, name);
                append_str(&mut m, " has no models");
                return Err(string_of(&m));
            }
            match noted {
                Some(n) => Ok(n),
                None => Ok(models[0].clone()),
            }
        },
    }
}

/// A session's system prompt with the skill catalog as its last layer.
pub fn with_catalog(prompt: &str, catalog: Option<&str>) -> (r: String)
    ensures
        r@ == match catalog {
            Some(c) => prompt@ + "\n\n"@ + c@,
            None => prompt@,
        },
{
    let mut out = chars_of(prompt);
    match catalog {
        Some(c) => {
            append_str(&mut out, "\n\n");
            append_str(&mut out, c);
        },
        None => {},
    }
    string_of(&out)
}

/// What the observational memory of a session is doing.
#[derive(Debug, Clone, Copy, PartialEq, Eq)]
pub enum OmStatus {
    Observing,
    Reflecting,
    Idle,
}

/// The status a memory hook's kind names: `observing`, `reflecting`, or
/// anything else for idle.
pub fn om_status_of(kind: &str) -> (r: OmStatus)
    ensures
        r == (if kind@ == "observing"@ {
            OmStatus::Observing
        } else if kind@ == "reflecting"@ {
            OmStatus::Reflecting
        } else {
            OmStatus::Idle
        }),
{
    let k = chars_of(kind);
    if crate::text::chars_eq(&k, &chars_of("observing")) {
        OmStatus::Observing
    } else if crate::text::chars_eq(&k, &chars_of("reflecting")) {
        OmStatus::Reflecting
    } else {
        OmStatus::Idle
    }
}

} // verus!

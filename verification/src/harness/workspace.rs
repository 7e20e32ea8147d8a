//! A workspace's identity: an id that is a hash of its directory (never
//! the path itself), and a name that is the directory's last component;
//! and the workspace index's open flags, which keep a closed workspace
//! closed across a restart.

use crate::harness::{path_components, spec_components, str_views};
use crate::om::groups::{hex_digit, spec_xxh3_64, xxh3_64};
use crate::text::{
    append_str, chars_eq, chars_of, lemma_text_lt_irrefl, lemma_text_lt_total, lemma_text_lt_trans, string_of, text_lt,
    text_lt_exec, trim, trim_chars,
};
use vstd::prelude::*;
use vstd::utf8::encode_utf8;

verus! {

/// The lowercase hexadecimal digits of `n` without leading zeros (`{:x}`).
pub open spec fn hex_min(n: nat) -> Seq<char>
    decreases n,
{
    if n < 16 {
        seq![hex_digit(n as int)]
    } else {
        hex_min(n / 16).push(hex_digit((n % 16) as int))
    }
}

/// Appends the lowercase hexadecimal digits of `n`.
fn push_hex_min(out: &mut Vec<char>, n: u64)
    ensures
        final(out)@ == old(out)@ + hex_min(n as nat),
    decreases n,
{
    if n >= 16 {
        push_hex_min(out, n / 16);
    }
    let d = (n % 16) as u8;
    let c = if d < 10 {
        (48u8 + d) as char
    } else {
        (87u8 + d) as char
    };
    out.push(c);
    assert(out@ =~= old(out)@ + hex_min(n as nat));
}

/// The id of the workspace at `cwd`: `w-` and the XXH3 hash of the
/// trimmed directory, in hexadecimal.
pub open spec fn workspace_id_of(cwd: Seq<char>) -> Seq<char> {
    "w-"@ + hex_min(spec_xxh3_64(encode_utf8(trim(cwd))) as nat)
}

/// The name of the workspace at `cwd`: the last component of the trimmed
/// directory, or the directory itself when that is empty or missing.
pub open spec fn workspace_name_of(cwd: Seq<char>) -> Seq<char> {
    let c = trim(cwd);
    let comps = spec_components(c);
    if comps.len() > 0 && comps.last().len() > 0 {
        comps.last()
    } else {
        c
    }
}

/// A workspace as its directory identifies it.
#[derive(Debug, Clone, PartialEq, Eq)]
pub struct WorkspaceIdentity {
    pub id: String,
    pub name: String,
    pub cwd: String,
}

/// The identity of the workspace at `cwd` (surrounding whitespace is not
/// part of the directory).
pub fn workspace_identity(cwd: &str) -> (r: WorkspaceIdentity)
    ensures
        r.cwd@ == trim(cwd@),
        r.id@ == workspace_id_of(cwd@),
        r.name@ == workspace_name_of(cwd@),
{
    let trimmed = trim_chars(&chars_of(cwd));
    let dir = string_of(&trimmed);
    let h = xxh3_64(dir.as_str().as_bytes());
    let mut id = chars_of("w-");
    push_hex_min(&mut id, h);
    let comps = path_components(dir.as_str());
    let ghost cv = spec_components(dir@);
    let name = if comps.len() > 0 && !comps[comps.len() - 1].as_str().is_empty() {
        proof {
            assert(str_views(comps@)[comps@.len() - 1] == comps@[comps@.len() - 1]@);
        }
        comps[comps.len() - 1].clone()
    } else {
        proof {
            if comps@.len() > 0 {
                assert(str_views(comps@)[comps@.len() - 1] == comps@[comps@.len() - 1]@);
            }
        }
        dir.clone()
    };
    WorkspaceIdentity { id: string_of(&id), name, cwd: dir }
}

/// A lowercase hexadecimal digit.
pub open spec fn is_hex_char(c: char) -> bool {
    ('0' <= c && c <= '9') || ('a' <= c && c <= 'f')
}

proof fn lemma_hex_min_digits(n: nat)
    ensures
        hex_min(n).len() > 0,
        forall|i: int| 0 <= i < hex_min(n).len() ==> is_hex_char(#[trigger] hex_min(n)[i]),
    decreases n,
{
    if n >= 16 {
        lemma_hex_min_digits(n / 16);
    }
}

/// A workspace's identity is stable and free of its path: two openings
/// of one directory (up to surrounding whitespace) get one id and one
/// name, and the id is `w-` then hexadecimal digits, never a path.
pub proof fn lemma_identity_is_stable_and_path_free(a: Seq<char>, b: Seq<char>)
    ensures
        trim(a) == trim(b) ==> workspace_id_of(a) == workspace_id_of(b) && workspace_name_of(a) == workspace_name_of(b),
        workspace_id_of(a).len() > 2,
        workspace_id_of(a).take(2) == "w-"@,
        forall|i: int| 2 <= i < workspace_id_of(a).len() ==> is_hex_char(#[trigger] workspace_id_of(a)[i]),
{
    let h = spec_xxh3_64(encode_utf8(trim(a))) as nat;
    lemma_hex_min_digits(h);
    reveal_strlit("w-");
    let id = workspace_id_of(a);
    assert(id.take(2) =~= "w-"@);
    assert forall|i: int| 2 <= i < id.len() implies is_hex_char(#[trigger] id[i]) by {
        assert(id[i] == hex_min(h)[i - 2]);
    }
}

/// A workspace as the index records it.
#[derive(Debug, Clone, PartialEq, Eq)]
pub struct WorkspaceEntry {
    pub id: String,
    pub name: String,
    pub cwd: String,
    pub open: bool,
}

pub struct WorkspaceEntryView {
    pub id: Seq<char>,
    pub name: Seq<char>,
    pub cwd: Seq<char>,
    pub open: bool,
}

impl View for WorkspaceEntry {
    type V = WorkspaceEntryView;

    open spec fn view(&self) -> WorkspaceEntryView {
        WorkspaceEntryView { id: self.id@, name: self.name@, cwd: self.cwd@, open: self.open }
    }
}

pub open spec fn index_views(v: Seq<WorkspaceEntry>) -> Seq<WorkspaceEntryView> {
    v.map_values(|e: WorkspaceEntry| e@)
}

/// The first entry of the index for the directory `cwd`.
pub open spec fn entry_for(s: Seq<WorkspaceEntryView>, cwd: Seq<char>, i: int) -> Option<int>
    decreases s.len() - i,
{
    if i < 0 || i >= s.len() {
        None
    } else if s[i].cwd == cwd {
        Some(i)
    } else {
        entry_for(s, cwd, i + 1)
    }
}

/// The first position, from `i` on, of an entry whose directory sorts
/// after `cwd`.
pub open spec fn first_after(s: Seq<WorkspaceEntryView>, cwd: Seq<char>, i: int) -> int
    decreases s.len() - i,
{
    if i < 0 || i >= s.len() {
        s.len() as int
    } else if text_lt(cwd, s[i].cwd) {
        i
    } else {
        first_after(s, cwd, i + 1)
    }
}

/// The entries sorted by directory, entries with one directory in their
/// order.
pub open spec fn by_cwd(s: Seq<WorkspaceEntryView>) -> Seq<WorkspaceEntryView>
    decreases s.len(),
{
    if s.len() == 0 {
        s
    } else {
        let t = by_cwd(s.drop_last());
        t.insert(first_after(t, s.last().cwd, 0), s.last())
    }
}

/// The index with a workspace's open flag set: the first entry for its
/// directory takes the flag; without one, the workspace is added and the
/// index sorted by directory.
pub open spec fn index_with_flag(
    s: Seq<WorkspaceEntryView>,
    id: Seq<char>,
    name: Seq<char>,
    cwd: Seq<char>,
    open: bool,
) -> Seq<WorkspaceEntryView> {
    match entry_for(s, cwd, 0) {
        Some(i) => s.update(i, WorkspaceEntryView { open, ..s[i] }),
        None => by_cwd(s.push(WorkspaceEntryView { id, name, cwd, open })),
    }
}

fn copy_entry(e: &WorkspaceEntry) -> (r: WorkspaceEntry)
    ensures
        r@ == e@,
{
    WorkspaceEntry { id: e.id.clone(), name: e.name.clone(), cwd: e.cwd.clone(), open: e.open }
}

/// Sets a workspace's open flag in the index (true on open, false on
/// close); the entry is created when the index has none for its
/// directory, so the flag always sticks.
pub fn set_open_flag(index: Vec<WorkspaceEntry>, w: &WorkspaceIdentity, open: bool) -> (r: Vec<WorkspaceEntry>)
    ensures
        index_views(r@) == index_with_flag(index_views(index@), w.id@, w.name@, w.cwd@, open),
{
    let ghost s = index_views(index@);
    let mut entries = index;
    let cwd = chars_of(w.cwd.as_str());
    let mut i: usize = 0;
    while i < entries.len()
        invariant
            i <= entries@.len(),
            s == index_views(entries@),
            s == index_views(index@),
            cwd@ == w.cwd@,
            entry_for(s, cwd@, 0) == entry_for(s, cwd@, i as int),
        decreases entries@.len() - i,
    {
        if chars_eq(&chars_of(entries[i].cwd.as_str()), &cwd) {
            assert(s[i as int].cwd == cwd@);
            assert(entry_for(s, cwd@, i as int) == Some(i as int));
            let mut e = copy_entry(&entries[i]);
            e.open = open;
            let ghost ev = e@;
            entries.set(i, e);
            assert(index_views(entries@) =~= s.update(i as int, WorkspaceEntryView { open, ..s[i as int] }));
            return entries;
        }
        i = i + 1;
    }
    let added = WorkspaceEntry { id: w.id.clone(), name: w.name.clone(), cwd: w.cwd.clone(), open };
    entries.push(added);
    let ghost all = index_views(entries@);
    assert(all =~= s.push(WorkspaceEntryView { id: w.id@, name: w.name@, cwd: w.cwd@, open }));
    let mut out: Vec<WorkspaceEntry> = Vec::new();
    let mut n: usize = 0;
    assert(all.take(0) =~= Seq::<WorkspaceEntryView>::empty());
    while n < entries.len()
        invariant
            n <= entries@.len(),
            all == index_views(entries@),
            index_views(out@) == by_cwd(all.take(n as int)),
        decreases entries@.len() - n,
    {
        let ghost sorted = index_views(out@);
        let key = chars_of(entries[n].cwd.as_str());
        let mut p: usize = 0;
        while p < out.len() && !text_lt_exec(&key, &chars_of(out[p].cwd.as_str()))
            invariant
                p <= out@.len(),
                sorted == index_views(out@),
                key@ == all[n as int].cwd,
                n < all.len(),
                first_after(sorted, key@, 0) == first_after(sorted, key@, p as int),
            decreases out@.len() - p,
        {
            p = p + 1;
        }
        let e = copy_entry(&entries[n]);
        out.insert(p, e);
        assert(all.take(n + 1).drop_last() =~= all.take(n as int));
        assert(index_views(out@) =~= sorted.insert(p as int, all[n as int]));
        n = n + 1;
    }
    assert(all.take(entries@.len() as int) =~= all);
    out
}

proof fn lemma_by_cwd_keeps_entries(s: Seq<WorkspaceEntryView>)
    ensures
        by_cwd(s).to_multiset() == s.to_multiset(),
    decreases s.len(),
{
    broadcast use vstd::seq_lib::to_multiset_insert, vstd::seq_lib::to_multiset_build;

    if s.len() > 0 {
        lemma_by_cwd_keeps_entries(s.drop_last());
        let t = by_cwd(s.drop_last());
        lemma_first_after_bound(t, s.last().cwd, 0);
        assert(s.drop_last().push(s.last()) =~= s);
    }
}

proof fn lemma_first_after_bound(s: Seq<WorkspaceEntryView>, cwd: Seq<char>, i: int)
    requires
        0 <= i <= s.len(),
    ensures
        i <= first_after(s, cwd, i) <= s.len(),
    decreases s.len() - i,
{
    if i < s.len() && !text_lt(cwd, s[i].cwd) {
        lemma_first_after_bound(s, cwd, i + 1);
    }
}

/// The open flag sticks: after it is set, the index holds an entry for
/// the workspace's directory with that flag, and every other entry of
/// the index is still there.
pub proof fn lemma_open_flag_sticks(
    s: Seq<WorkspaceEntryView>,
    id: Seq<char>,
    name: Seq<char>,
    cwd: Seq<char>,
    open: bool,
)
    ensures
        ({
            let r = index_with_flag(s, id, name, cwd, open);
            &&& exists|i: int| 0 <= i < r.len() && #[trigger] r[i].cwd == cwd && r[i].open == open
            &&& forall|e: WorkspaceEntryView| s.contains(e) && e.cwd != cwd ==> r.contains(e)
        }),
{
    broadcast use vstd::seq_lib::to_multiset_contains;

    let r = index_with_flag(s, id, name, cwd, open);
    match entry_for(s, cwd, 0) {
        Some(i) => {
            lemma_entry_for(s, cwd, 0);
            assert(r[i].cwd == cwd && r[i].open == open);
            assert forall|e: WorkspaceEntryView| s.contains(e) && e.cwd != cwd implies r.contains(e) by {
                let j = choose|j: int| 0 <= j < s.len() && s[j] == e;
                assert(r[j] == e);
            }
        },
        None => {
            let x = WorkspaceEntryView { id, name, cwd, open };
            let p = s.push(x);
            lemma_by_cwd_keeps_entries(p);
            assert(p[s.len() as int] == x);
            assert(p.contains(x));
            assert(p.to_multiset().count(x) > 0);
            assert(r.contains(x));
            let k = choose|k: int| 0 <= k < r.len() && r[k] == x;
            assert(r[k].cwd == cwd && r[k].open == open);
            assert forall|e: WorkspaceEntryView| s.contains(e) && e.cwd != cwd implies r.contains(e) by {
                let j = choose|j: int| 0 <= j < s.len() && s[j] == e;
                assert(p[j] == e);
                assert(p.contains(e));
                assert(p.to_multiset().count(e) > 0);
            }
        },
    }
}

proof fn lemma_entry_for(s: Seq<WorkspaceEntryView>, cwd: Seq<char>, i: int)
    requires
        0 <= i,
    ensures
        entry_for(s, cwd, i) matches Some(k) ==> i <= k < s.len() && s[k].cwd == cwd,
    decreases s.len() - i,
{
    if i < s.len() && s[i].cwd != cwd {
        lemma_entry_for(s, cwd, i + 1);
    }
}

/// The refusal of a write to an archived session: restore it first, or
/// its parent when it archived with its parent.
pub fn archived_refusal(session: &str, has_parent: bool) -> (r: String)
    ensures
        has_parent ==> r@ == "session "@ + session@ + " is archived with its parent — restore the parent first"@,
        !has_parent ==> r@ == "session "@ + session@ + " is archived — restore it first"@,
{
    let mut m = chars_of("session ");
    append_str(&mut m, session);
    if has_parent {
        append_str(&mut m, " is archived with its parent — restore the parent first");
    } else {
        append_str(&mut m, " is archived — restore it first");
    }
    string_of(&m)
}

} // verus!

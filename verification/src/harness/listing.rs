//! One directory's listing for the files pane: the excluded names
//! dropped, paths relative to the workspace (the root is `.`), and
//! directories first, then by name.

use crate::harness::{is_excluded, is_excluded_exec, spec_strip_prefix, strip_path_prefix};
use crate::text::{chars_of, lemma_text_lt_total, lemma_text_lt_trans, text_lt, text_lt_exec};
use vstd::prelude::*;

verus! {

/// A listed file or directory.
#[derive(Debug, Clone, PartialEq, Eq)]
pub struct FileItem {
    pub name: String,
    pub path: String,
    pub dir: bool,
    pub size: u64,
}

pub struct FileItemView {
    pub name: Seq<char>,
    pub path: Seq<char>,
    pub dir: bool,
    pub size: u64,
}

impl View for FileItem {
    type V = FileItemView;

    open spec fn view(&self) -> FileItemView {
        FileItemView { name: self.name@, path: self.path@, dir: self.dir, size: self.size }
    }
}

/// A directory entry as it was read: its name, its full path, whether it
/// is a directory, and its size in bytes.
pub open spec fn found_views(v: Seq<(String, String, bool, u64)>) -> Seq<(Seq<char>, Seq<char>, bool, u64)> {
    v.map_values(|e: (String, String, bool, u64)| (e.0@, e.1@, e.2, e.3))
}

/// A path as the pane shows it: relative to the workspace when inside it
/// (`.` for the workspace itself), else as it is.
pub open spec fn pane_path(path: Seq<char>, cwd: Seq<char>) -> Seq<char> {
    let rel = match spec_strip_prefix(path, cwd) {
        Some(r) => r,
        None => path,
    };
    if rel.len() == 0 {
        "."@
    } else {
        rel
    }
}

/// The item a read entry lists as (a directory's size is 0).
pub open spec fn item_of(e: (Seq<char>, Seq<char>, bool, u64), cwd: Seq<char>) -> FileItemView {
    FileItemView {
        name: e.0,
        path: pane_path(e.1, cwd),
        dir: e.2,
        size: if e.2 {
            0
        } else {
            e.3
        },
    }
}

/// The entries not excluded, as items, in the order read.
pub open spec fn kept_items(found: Seq<(Seq<char>, Seq<char>, bool, u64)>, cwd: Seq<char>) -> Seq<FileItemView>
    decreases found.len(),
{
    if found.len() == 0 {
        Seq::empty()
    } else {
        let prev = kept_items(found.drop_last(), cwd);
        if is_excluded(found.last().0) {
            prev
        } else {
            prev.push(item_of(found.last(), cwd))
        }
    }
}

/// Does `a` list before `b`: directories first, then by name.
pub open spec fn lists_before(a: FileItemView, b: FileItemView) -> bool {
    (a.dir && !b.dir) || (a.dir == b.dir && text_lt(a.name, b.name))
}

/// The first position, from `i` on, of an item that `x` lists before.
pub open spec fn first_listed_after(s: Seq<FileItemView>, x: FileItemView, i: int) -> int
    decreases s.len() - i,
{
    if i < 0 || i >= s.len() {
        s.len() as int
    } else if lists_before(x, s[i]) {
        i
    } else {
        first_listed_after(s, x, i + 1)
    }
}

/// The items in listing order, items that tie in the order read.
pub open spec fn listing_order(s: Seq<FileItemView>) -> Seq<FileItemView>
    decreases s.len(),
{
    if s.len() == 0 {
        s
    } else {
        let t = listing_order(s.drop_last());
        t.insert(first_listed_after(t, s.last(), 0), s.last())
    }
}

pub open spec fn item_views(v: Seq<FileItem>) -> Seq<FileItemView> {
    v.map_values(|i: FileItem| i@)
}

fn copy_item(i: &FileItem) -> (r: FileItem)
    ensures
        r@ == i@,
{
    FileItem { name: i.name.clone(), path: i.path.clone(), dir: i.dir, size: i.size }
}

fn lists_before_exec(a: &FileItem, b: &FileItem) -> (r: bool)
    ensures
        r == lists_before(a@, b@),
{
    if a.dir != b.dir {
        return a.dir;
    }
    text_lt_exec(&chars_of(a.name.as_str()), &chars_of(b.name.as_str()))
}

/// One directory's listing from the entries read in it.
pub fn dir_listing(cwd: &str, found: &[(String, String, bool, u64)]) -> (r: Vec<FileItem>)
    ensures
        item_views(r@) == listing_order(kept_items(found_views(found@), cwd@)),
{
    let ghost fv = found_views(found@);
    let mut kept: Vec<FileItem> = Vec::new();
    let mut i: usize = 0;
    assert(fv.take(0) =~= Seq::<(Seq<char>, Seq<char>, bool, u64)>::empty());
    while i < found.len()
        invariant
            i <= found@.len(),
            fv == found_views(found@),
            item_views(kept@) == kept_items(fv.take(i as int), cwd@),
        decreases found@.len() - i,
    {
        assert(fv.take(i + 1).drop_last() =~= fv.take(i as int));
        assert(fv.take(i + 1).last() == fv[i as int]);
        let name = chars_of(found[i].0.as_str());
        if !is_excluded_exec(&name) {
            let rel = match strip_path_prefix(found[i].1.as_str(), cwd) {
                Some(r) => r,
                None => found[i].1.clone(),
            };
            let path = if rel.as_str().is_empty() {
                String::from_str(".")
            } else {
                rel
            };
            let size = if found[i].2 {
                0
            } else {
                found[i].3
            };
            let ghost before = item_views(kept@);
            kept.push(FileItem { name: found[i].0.clone(), path, dir: found[i].2, size });
            assert(item_views(kept@) =~= before.push(item_of(fv[i as int], cwd@)));
        }
        i = i + 1;
    }
    assert(fv.take(found@.len() as int) =~= fv);
    let ghost all = item_views(kept@);
    let mut out: Vec<FileItem> = Vec::new();
    let mut n: usize = 0;
    assert(all.take(0) =~= Seq::<FileItemView>::empty());
    while n < kept.len()
        invariant
            n <= kept@.len(),
            all == item_views(kept@),
            item_views(out@) == listing_order(all.take(n as int)),
        decreases kept@.len() - n,
    {
        let ghost sorted = item_views(out@);
        let mut p: usize = 0;
        while p < out.len() && !lists_before_exec(&kept[n], &out[p])
            invariant
                p <= out@.len(),
                sorted == item_views(out@),
                n < all.len(),
                all == item_views(kept@),
                first_listed_after(sorted, all[n as int], 0) == first_listed_after(sorted, all[n as int], p as int),
            decreases out@.len() - p,
        {
            p = p + 1;
        }
        let e = copy_item(&kept[n]);
        out.insert(p, e);
        assert(all.take(n + 1).drop_last() =~= all.take(n as int));
        assert(item_views(out@) =~= sorted.insert(p as int, all[n as int]));
        n = n + 1;
    }
    assert(all.take(kept@.len() as int) =~= all);
    out
}

proof fn lemma_lists_before_trans(a: FileItemView, b: FileItemView, c: FileItemView)
    requires
        lists_before(a, b),
        lists_before(b, c),
    ensures
        lists_before(a, c),
{
    if a.dir == b.dir && b.dir == c.dir {
        lemma_text_lt_trans(a.name, b.name, c.name);
    }
}

proof fn lemma_lists_before_asym(a: FileItemView, b: FileItemView)
    ensures
        !(lists_before(a, b) && lists_before(b, a)),
{
    lemma_text_lt_total(a.name, b.name);
}

proof fn lemma_first_listed_after(s: Seq<FileItemView>, x: FileItemView, i: int)
    requires
        0 <= i <= s.len(),
    ensures
        i <= first_listed_after(s, x, i) <= s.len(),
        forall|a: int| i <= a < first_listed_after(s, x, i) ==> !lists_before(x, #[trigger] s[a]),
        first_listed_after(s, x, i) < s.len() ==> lists_before(x, s[first_listed_after(s, x, i)]),
    decreases s.len() - i,
{
    if i < s.len() && !lists_before(x, s[i]) {
        lemma_first_listed_after(s, x, i + 1);
    }
}

/// No item lists before one that comes earlier.
pub open spec fn in_listing_order(l: Seq<FileItemView>) -> bool {
    forall|i: int, j: int| 0 <= i < j < l.len() ==> !lists_before(#[trigger] l[j], #[trigger] l[i])
}

proof fn lemma_listing_order(s: Seq<FileItemView>)
    ensures
        in_listing_order(listing_order(s)),
        listing_order(s).to_multiset() == s.to_multiset(),
    decreases s.len(),
{
    broadcast use vstd::seq_lib::to_multiset_insert, vstd::seq_lib::to_multiset_build;

    if s.len() > 0 {
        let x = s.last();
        let t = listing_order(s.drop_last());
        lemma_listing_order(s.drop_last());
        lemma_first_listed_after(t, x, 0);
        let k = first_listed_after(t, x, 0);
        let l = t.insert(k, x);
        assert forall|i: int, j: int| 0 <= i < j < l.len() implies !lists_before(#[trigger] l[j], #[trigger] l[i]) by {
            if j < k {
                assert(l[j] == t[j] && l[i] == t[i]);
            } else if j == k {
                assert(l[i] == t[i]);
            } else if i < k {
                assert(l[j] == t[j - 1] && l[i] == t[i]);
            } else if i == k {
                assert(l[j] == t[j - 1]);
                if lists_before(t[j - 1], x) {
                    if j - 1 > k {
                        lemma_lists_before_trans(t[j - 1], x, t[k]);
                    } else {
                        lemma_lists_before_asym(x, t[k]);
                    }
                }
            } else {
                assert(l[j] == t[j - 1] && l[i] == t[i - 1]);
            }
        }
        assert(s.drop_last().push(x) =~= s);
    }
}

proof fn lemma_kept_not_excluded(found: Seq<(Seq<char>, Seq<char>, bool, u64)>, cwd: Seq<char>)
    ensures
        forall|k: int| 0 <= k < kept_items(found, cwd).len() ==> !is_excluded(#[trigger] kept_items(found, cwd)[k].name),
    decreases found.len(),
{
    if found.len() > 0 {
        lemma_kept_not_excluded(found.drop_last(), cwd);
        let prev = kept_items(found.drop_last(), cwd);
        let kept = kept_items(found, cwd);
        assert forall|k: int| 0 <= k < kept.len() implies !is_excluded(#[trigger] kept[k].name) by {
            if k < prev.len() {
                assert(kept[k] == prev[k]);
            }
        }
    }
}

/// A listing lists directories first, then by name; it holds exactly the
/// entries read whose names are not excluded, each as often as read.
pub proof fn lemma_listing_is_ordered(found: Seq<(Seq<char>, Seq<char>, bool, u64)>, cwd: Seq<char>)
    ensures
        ({
            let kept = kept_items(found, cwd);
            let l = listing_order(kept);
            &&& in_listing_order(l)
            &&& l.to_multiset() == kept.to_multiset()
            &&& forall|k: int| 0 <= k < l.len() ==> !is_excluded(#[trigger] l[k].name)
        }),
{
    broadcast use vstd::seq_lib::to_multiset_contains;

    let kept = kept_items(found, cwd);
    let l = listing_order(kept);
    lemma_listing_order(kept);
    lemma_kept_not_excluded(found, cwd);
    assert forall|k: int| 0 <= k < l.len() implies !is_excluded(#[trigger] l[k].name) by {
        assert(l.contains(l[k]));
        assert(l.to_multiset().count(l[k]) > 0);
        assert(kept.contains(l[k]));
        let m = choose|m: int| 0 <= m < kept.len() && kept[m] == l[k];
        assert(!is_excluded(kept[m].name));
    }
}

} // verus!

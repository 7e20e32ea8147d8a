//! Which sessions go with a deleted one: the session and everything it
//! created, transitively (a delete would orphan its children).

use crate::harness::str_views;
use crate::text::{chars_eq, chars_of};
use vstd::prelude::*;

verus! {

/// A listed session: its id and the session that created it.
pub open spec fn link_views(all: Seq<(String, Option<String>)>) -> Seq<(Seq<char>, Option<Seq<char>>)> {
    all.map_values(
        |l: (String, Option<String>)|
            (
                l.0@,
                match l.1 {
                    Some(p) => Some(p@),
                    None => None,
                },
            ),
    )
}

/// `c` is a session that `p` created.
pub open spec fn is_child(ls: Seq<(Seq<char>, Option<Seq<char>>)>, p: Seq<char>, c: Seq<char>) -> bool {
    exists|k: int| 0 <= k < ls.len() && ls[k].0 == c && ls[k].1 == Some(p)
}

/// The listed session at `j` was created by one listed before it.
pub open spec fn created_by_earlier(ls: Seq<(Seq<char>, Option<Seq<char>>)>, out: Seq<Seq<char>>, j: int) -> bool {
    exists|p: int| 0 <= p < j && #[trigger] is_child(ls, out[p], out[j])
}

/// A list of sessions that holds `root` first, nothing twice, every child
/// of a listed session, and past the root only sessions created by one
/// listed before them: exactly `root` and its descendants.
pub open spec fn descendant_list(ls: Seq<(Seq<char>, Option<Seq<char>>)>, root: Seq<char>, out: Seq<Seq<char>>) -> bool {
    &&& out.len() >= 1
    &&& out[0] == root
    &&& out.no_duplicates()
    &&& forall|j: int, k: int|
        #![trigger ls[k], out[j]]
        0 <= j < out.len() && 0 <= k < ls.len() && ls[k].1 == Some(out[j]) ==> out.contains(ls[k].0)
    &&& forall|j: int| 1 <= j < out.len() ==> #[trigger] created_by_earlier(ls, out, j)
}

/// `out` with the children of `p` among the listed sessions from `k` on
/// appended, in listing order, each unless already there.
pub open spec fn children_step(
    ls: Seq<(Seq<char>, Option<Seq<char>>)>,
    out: Seq<Seq<char>>,
    p: Seq<char>,
    k: int,
) -> Seq<Seq<char>>
    decreases ls.len() - k,
{
    if k < 0 || k >= ls.len() {
        out
    } else {
        let next = if ls[k].1 == Some(p) && !out.contains(ls[k].0) {
            out.push(ls[k].0)
        } else {
            out
        };
        children_step(ls, next, p, k + 1)
    }
}

/// The breadth-first walk from position `i` of `out` on: each session in
/// turn has its children appended.
pub open spec fn bfs_from(ls: Seq<(Seq<char>, Option<Seq<char>>)>, out: Seq<Seq<char>>, i: int) -> Seq<Seq<char>>
    decreases ls.len() + 1 - i,
{
    if i < 0 || i >= out.len() || i > ls.len() {
        out
    } else {
        bfs_from(ls, children_step(ls, out, out[i], 0), i + 1)
    }
}

/// A no-duplicate sequence of indices below `n` has at most `n` of them.
proof fn lemma_distinct_indices(idx: Seq<int>, n: int)
    requires
        idx.no_duplicates(),
        n >= 0,
        forall|j: int| 0 <= j < idx.len() ==> 0 <= #[trigger] idx[j] < n,
    ensures
        idx.len() <= n,
{
    idx.unique_seq_to_set();
    vstd::set_lib::lemma_int_range(0, n);
    assert(idx.to_set().subset_of(vstd::set_lib::set_int_range(0, n)));
    vstd::set_lib::lemma_len_subset(idx.to_set(), vstd::set_lib::set_int_range(0, n));
}

fn contains_id(out: &Vec<String>, id: &str) -> (r: bool)
    ensures
        r == str_views(out@).contains(id@),
{
    let k = chars_of(id);
    let mut i: usize = 0;
    while i < out.len()
        invariant
            i <= out@.len(),
            k@ == id@,
            forall|j: int| 0 <= j < i ==> str_views(out@)[j] != id@,
        decreases out@.len() - i,
    {
        if chars_eq(&chars_of(out[i].as_str()), &k) {
            assert(str_views(out@)[i as int] == id@);
            return true;
        }
        i = i + 1;
    }
    false
}

/// The session `root` and every session it created, transitively: a
/// breadth-first walk over the creator links of the listing.
pub fn descendants(all: &[(String, Option<String>)], root: &str) -> (out: Vec<String>)
    ensures
        descendant_list(link_views(all@), root@, str_views(out@)),
        str_views(out@) == bfs_from(link_views(all@), seq![root@], 0),
{
    let ghost ls = link_views(all@);
    let mut out: Vec<String> = Vec::new();
    out.push(String::from_str(root));
    let ghost mut idx: Seq<int> = Seq::empty();
    let ghost mut par: Seq<int> = seq![0int];
    assert(str_views(out@) =~= seq![root@]);
    let mut i: usize = 0;
    while i < out.len()
        invariant
            ls == link_views(all@),
            1 <= out@.len() <= all@.len() + 1,
            i <= out@.len(),
            bfs_from(ls, seq![root@], 0) == bfs_from(ls, str_views(out@), i as int),
            str_views(out@)[0] == root@,
            str_views(out@).no_duplicates(),
            idx.len() + 1 == out@.len(),
            idx.no_duplicates(),
            forall|j: int| 0 <= j < idx.len() ==> 0 <= #[trigger] idx[j] < all@.len(),
            forall|j: int| 0 <= j < idx.len() ==> ls[#[trigger] idx[j]].0 == str_views(out@)[j + 1],
            par.len() == out@.len(),
            forall|j: int| 1 <= j < out@.len() ==> 0 <= #[trigger] par[j] < j && ls[idx[j - 1]].1 == Some(
                str_views(out@)[par[j]],
            ),
            forall|j: int, k: int|
                #![trigger ls[k], str_views(out@)[j]]
                0 <= j < i && 0 <= k < ls.len() && ls[k].1 == Some(str_views(out@)[j]) ==> str_views(
                    out@,
                ).contains(ls[k].0),
        decreases all@.len() + 1 - i,
    {
        let parent = out[i].clone();
        let ghost pi = i as int;
        assert(parent@ == str_views(out@)[pi]);
        let ghost start = str_views(out@);
        assert(bfs_from(ls, start, pi) == bfs_from(ls, children_step(ls, start, parent@, 0), pi + 1));
        i = i + 1;
        let mut k: usize = 0;
        while k < all.len()
            invariant
                ls == link_views(all@),
                1 <= out@.len() <= all@.len() + 1,
                1 <= i <= out@.len(),
                pi == i - 1,
                parent@ == str_views(out@)[pi],
                bfs_from(ls, seq![root@], 0) == bfs_from(ls, children_step(ls, start, parent@, 0), i as int),
                children_step(ls, start, parent@, 0) == children_step(ls, str_views(out@), parent@, k as int),
                k <= all@.len(),
                str_views(out@)[0] == root@,
                str_views(out@).no_duplicates(),
                idx.len() + 1 == out@.len(),
                idx.no_duplicates(),
                forall|j: int| 0 <= j < idx.len() ==> 0 <= #[trigger] idx[j] < all@.len(),
                forall|j: int| 0 <= j < idx.len() ==> ls[#[trigger] idx[j]].0 == str_views(out@)[j + 1],
                par.len() == out@.len(),
                forall|j: int| 1 <= j < out@.len() ==> 0 <= #[trigger] par[j] < j && ls[idx[j - 1]].1 == Some(
                    str_views(out@)[par[j]],
                ),
                forall|j: int, q: int|
                    #![trigger ls[q], str_views(out@)[j]]
                    0 <= j < pi && 0 <= q < ls.len() && ls[q].1 == Some(str_views(out@)[j]) ==> str_views(
                        out@,
                    ).contains(ls[q].0),
                forall|q: int| 0 <= q < k && #[trigger] ls[q].1 == Some(parent@) ==> str_views(out@).contains(ls[q].0),
            decreases all@.len() - k,
        {
            let link = &all[k];
            assert(ls[k as int] == (link.0@, match link.1 { Some(p) => Some(p@), None => None }));
            let is_child_here = match &link.1 {
                Some(p) => chars_eq(&chars_of(p.as_str()), &chars_of(parent.as_str())),
                None => false,
            };
            assert(is_child_here == (ls[k as int].1 == Some(parent@)));
            let ghost cur = str_views(out@);
            if is_child_here && !contains_id(&out, link.0.as_str()) {
                let ghost before = str_views(out@);
                out.push(link.0.clone());
                proof {
                    assert(str_views(out@) =~= before.push(ls[k as int].0));
                    assert forall|j: int| 0 <= j < idx.len() implies idx[j] != k as int by {
                        assert(before[j + 1] == ls[idx[j]].0);
                    }
                    idx = idx.push(k as int);
                    par = par.push(pi);
                    assert(str_views(out@)[pi] == before[pi]);
                    assert(ls[k as int].1 == Some(str_views(out@)[pi]));
                    assert(ls[k as int].0 == str_views(out@)[out@.len() - 1]);
                    assert(is_child(ls, str_views(out@)[pi], str_views(out@)[out@.len() - 1]));
                    assert forall|a: int, b: int| 0 <= a < b < str_views(out@).len() implies str_views(out@)[a]
                        != str_views(out@)[b] by {
                        if b == str_views(out@).len() - 1 {
                            assert(before[a] == str_views(out@)[a]);
                        }
                    }
                    lemma_distinct_indices(idx, all@.len() as int);
                    assert forall|x: Seq<char>| before.contains(x) implies str_views(out@).contains(x) by {
                        let w = choose|w: int| 0 <= w < before.len() && before[w] == x;
                        assert(str_views(out@)[w] == x);
                    }
                    assert(str_views(out@).contains(ls[k as int].0)) by {
                        assert(str_views(out@)[out@.len() - 1] == ls[k as int].0);
                    }
                }
            }
            assert(children_step(ls, cur, parent@, k as int) == children_step(ls, str_views(out@), parent@, k + 1));
            k = k + 1;
        }
    }
    proof {
        let o = str_views(out@);
        assert(o.len() >= 1);
        assert(o[0] == root@);
        assert(o.no_duplicates());
        assert forall|j: int, k: int|
            #![trigger ls[k], o[j]]
            0 <= j < o.len() && 0 <= k < ls.len() && ls[k].1 == Some(o[j]) implies o.contains(ls[k].0) by {
            assert(j < i);
        }
        assert forall|j: int| 1 <= j < o.len() implies #[trigger] created_by_earlier(ls, o, j) by {
            let p = par[j];
            assert(0 <= p < j);
            assert(ls[idx[j - 1]].0 == o[j]);
            assert(is_child(ls, o[p], o[j]));
        }
    }
    out
}

/// `x` is `root` or descends from it within `n` creator links.
pub open spec fn descends_within(ls: Seq<(Seq<char>, Option<Seq<char>>)>, root: Seq<char>, x: Seq<char>, n: nat) -> bool
    decreases n,
{
    if n == 0 {
        x == root
    } else {
        descends_within(ls, root, x, (n - 1) as nat) || exists|p: Seq<char>|
            #[trigger] is_child(ls, p, x) && descends_within(ls, root, p, (n - 1) as nat)
    }
}

proof fn lemma_listed_descend(ls: Seq<(Seq<char>, Option<Seq<char>>)>, root: Seq<char>, out: Seq<Seq<char>>, j: int)
    requires
        descendant_list(ls, root, out),
        0 <= j < out.len(),
    ensures
        exists|n: nat| #[trigger] descends_within(ls, root, out[j], n),
    decreases j,
{
    if j == 0 {
        assert(descends_within(ls, root, out[j], 0));
    } else {
        assert(created_by_earlier(ls, out, j));
        let p = choose|p: int| 0 <= p < j && #[trigger] is_child(ls, out[p], out[j]);
        lemma_listed_descend(ls, root, out, p);
        let n = choose|n: nat| #[trigger] descends_within(ls, root, out[p], n);
        assert(descends_within(ls, root, out[j], n + 1));
    }
}

proof fn lemma_descend_listed(ls: Seq<(Seq<char>, Option<Seq<char>>)>, root: Seq<char>, out: Seq<Seq<char>>, x: Seq<char>, n: nat)
    requires
        descendant_list(ls, root, out),
        descends_within(ls, root, x, n),
    ensures
        out.contains(x),
    decreases n,
{
    if n == 0 {
        assert(out[0] == x);
    } else if descends_within(ls, root, x, (n - 1) as nat) {
        lemma_descend_listed(ls, root, out, x, (n - 1) as nat);
    } else {
        let p = choose|p: Seq<char>| #[trigger] is_child(ls, p, x) && descends_within(ls, root, p, (n - 1) as nat);
        lemma_descend_listed(ls, root, out, p, (n - 1) as nat);
        let j = choose|j: int| 0 <= j < out.len() && out[j] == p;
        let k = choose|k: int| 0 <= k < ls.len() && ls[k].0 == x && ls[k].1 == Some(p);
        assert(ls[k].1 == Some(out[j]));
    }
}

/// What a delete takes with it is exactly the session's subtree: a
/// session is in the list if and only if it is the root or descends from
/// it through creator links.
pub proof fn lemma_descendants_are_the_subtree(
    ls: Seq<(Seq<char>, Option<Seq<char>>)>,
    root: Seq<char>,
    out: Seq<Seq<char>>,
    x: Seq<char>,
)
    requires
        descendant_list(ls, root, out),
    ensures
        out.contains(x) <==> exists|n: nat| #[trigger] descends_within(ls, root, x, n),
{
    if out.contains(x) {
        let j = choose|j: int| 0 <= j < out.len() && out[j] == x;
        lemma_listed_descend(ls, root, out, j);
    }
    if exists|n: nat| #[trigger] descends_within(ls, root, x, n) {
        let n = choose|n: nat| #[trigger] descends_within(ls, root, x, n);
        lemma_descend_listed(ls, root, out, x, n);
    }
}

} // verus!

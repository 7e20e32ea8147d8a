//! Character-level text primitives with specifications: conversion between
//! `str` and character vectors, whitespace per the Unicode `White_Space`
//! property, trimming, line splitting, and substring search.

use vstd::prelude::*;

verus! {

broadcast use vstd::string::axiom_spec_iter, vstd::string::next_postcondition;

/// The characters of `s`, in order.
pub fn chars_of(s: &str) -> (v: Vec<char>)
    ensures
        v@ == s@,
{
    let mut v: Vec<char> = Vec::new();
    for c in it: s.chars()
        invariant
            v@ == it.seq().take(it.index() as int),
    {
        v.push(c);
    }
    v
}

/// Appends one character (`String::push`).
#[verifier::external_body]
pub(crate) fn push_char(s: &mut String, c: char)
    ensures
        final(s)@ == old(s)@.push(c),
{
    s.push(c);
}

/// The string made of the characters of `v`.
pub fn string_of(v: &[char]) -> (s: String)
    ensures
        s@ == v@,
{
    let mut s = String::new();
    let mut i: usize = 0;
    while i < v.len()
        invariant
            i <= v@.len(),
            s@ == v@.take(i as int),
        decreases v@.len() - i,
    {
        push_char(&mut s, v[i]);
        assert(v@.take(i as int).push(v@[i as int]) =~= v@.take(i + 1));
        i = i + 1;
    }
    assert(v@.take(v@.len() as int) =~= v@);
    s
}

/// Appends the characters of `v` to `s`.
pub fn push_chars(s: &mut String, v: &[char])
    ensures
        final(s)@ == old(s)@ + v@,
{
    let mut i: usize = 0;
    while i < v.len()
        invariant
            i <= v@.len(),
            s@ == old(s)@ + v@.take(i as int),
        decreases v@.len() - i,
    {
        push_char(s, v[i]);
        assert(v@.take(i as int).push(v@[i as int]) =~= v@.take(i + 1));
        i = i + 1;
    }
    assert(v@.take(v@.len() as int) =~= v@);
}

/// Unicode `White_Space`, the set `char::is_whitespace` tests.
pub open spec fn is_ws(c: char) -> bool {
    let u = c as u32;
    ||| 0x9 <= u <= 0xd
    ||| u == 0x20
    ||| u == 0x85
    ||| u == 0xa0
    ||| u == 0x1680
    ||| 0x2000 <= u <= 0x200a
    ||| u == 0x2028
    ||| u == 0x2029
    ||| u == 0x202f
    ||| u == 0x205f
    ||| u == 0x3000
}

pub fn char_is_ws(c: char) -> (b: bool)
    ensures
        b == is_ws(c),
{
    let u = c as u32;
    (0x9 <= u && u <= 0xd) || u == 0x20 || u == 0x85 || u == 0xa0 || u == 0x1680 || (0x2000
        <= u && u <= 0x200a) || u == 0x2028 || u == 0x2029 || u == 0x202f || u == 0x205f || u
        == 0x3000
}

/// Number of leading whitespace characters.
pub open spec fn lead_ws(s: Seq<char>) -> nat
    decreases s.len(),
{
    if s.len() > 0 && is_ws(s[0]) {
        1 + lead_ws(s.drop_first())
    } else {
        0
    }
}

/// Number of trailing whitespace characters.
pub open spec fn trail_ws(s: Seq<char>) -> nat
    decreases s.len(),
{
    if s.len() > 0 && is_ws(s.last()) {
        1 + trail_ws(s.drop_last())
    } else {
        0
    }
}

pub open spec fn trim_start(s: Seq<char>) -> Seq<char> {
    s.skip(lead_ws(s) as int)
}

pub open spec fn trim_end(s: Seq<char>) -> Seq<char> {
    s.take(s.len() - trail_ws(s))
}

pub open spec fn trim(s: Seq<char>) -> Seq<char> {
    trim_end(trim_start(s))
}

/// `k` is where the leading whitespace of `s` ends.
pub proof fn lemma_lead_ws(s: Seq<char>, k: int)
    requires
        0 <= k <= s.len(),
        forall|i: int| 0 <= i < k ==> is_ws(#[trigger] s[i]),
        k < s.len() ==> !is_ws(s[k]),
    ensures
        lead_ws(s) == k,
    decreases s.len(),
{
    if k > 0 {
        assert(is_ws(s[0]));
        assert forall|i: int| 0 <= i < k - 1 implies is_ws(#[trigger] s.drop_first()[i]) by {
            assert(is_ws(s[i + 1]));
        }
        lemma_lead_ws(s.drop_first(), k - 1);
    }
}

/// `k` trailing characters of `s` are whitespace and no more.
pub proof fn lemma_trail_ws(s: Seq<char>, k: int)
    requires
        0 <= k <= s.len(),
        forall|i: int| s.len() - k <= i < s.len() ==> is_ws(#[trigger] s[i]),
        k < s.len() ==> !is_ws(s[s.len() - k - 1]),
    ensures
        trail_ws(s) == k,
    decreases s.len(),
{
    if k > 0 {
        assert(is_ws(s[s.len() - 1]));
        let t = s.drop_last();
        assert forall|i: int| t.len() - (k - 1) <= i < t.len() implies is_ws(#[trigger] t[i]) by {
            assert(is_ws(s[i]));
        }
        lemma_trail_ws(t, k - 1);
    }
}

pub proof fn lemma_lead_ws_bound(s: Seq<char>)
    ensures
        lead_ws(s) <= s.len(),
        forall|i: int| 0 <= i < lead_ws(s) ==> is_ws(#[trigger] s[i]),
        lead_ws(s) < s.len() ==> !is_ws(s[lead_ws(s) as int]),
    decreases s.len(),
{
    if s.len() > 0 && is_ws(s[0]) {
        lemma_lead_ws_bound(s.drop_first());
        assert forall|i: int| 0 <= i < lead_ws(s) implies is_ws(#[trigger] s[i]) by {
            if i > 0 {
                assert(s[i] == s.drop_first()[i - 1]);
            }
        }
    }
}

pub proof fn lemma_trail_ws_bound(s: Seq<char>)
    ensures
        trail_ws(s) <= s.len(),
        forall|i: int| s.len() - trail_ws(s) <= i < s.len() ==> is_ws(#[trigger] s[i]),
        trail_ws(s) < s.len() ==> !is_ws(s[s.len() - trail_ws(s) - 1]),
    decreases s.len(),
{
    if s.len() > 0 && is_ws(s.last()) {
        lemma_trail_ws_bound(s.drop_last());
        assert forall|i: int| s.len() - trail_ws(s) <= i < s.len() implies is_ws(#[trigger] s[i]) by {
            if i < s.len() - 1 {
                assert(s[i] == s.drop_last()[i]);
            }
        }
    }
}

/// Trimming never lengthens a text.
pub proof fn lemma_trim_len(s: Seq<char>)
    ensures
        trim(s).len() <= s.len(),
        trim_start(s).len() <= s.len(),
{
    lemma_lead_ws_bound(s);
    lemma_trail_ws_bound(trim_start(s));
}

/// Index of the first non-whitespace character of `v[lo..hi]` (or `hi`).
pub fn skip_ws(v: &[char], lo: usize, hi: usize) -> (k: usize)
    requires
        lo <= hi <= v@.len(),
    ensures
        lo <= k <= hi,
        k - lo == lead_ws(v@.subrange(lo as int, hi as int)),
{
    let mut k = lo;
    while k < hi && char_is_ws(v[k])
        invariant
            lo <= k <= hi <= v@.len(),
            forall|i: int| lo <= i < k ==> is_ws(#[trigger] v@[i]),
        decreases hi - k,
    {
        k = k + 1;
    }
    proof {
        let s = v@.subrange(lo as int, hi as int);
        assert forall|i: int| 0 <= i < k - lo implies is_ws(#[trigger] s[i]) by {
            assert(s[i] == v@[lo + i]);
        }
        lemma_lead_ws(s, k - lo);
    }
    k
}

/// Index one past the last non-whitespace character of `v[lo..hi]` (or `lo`).
pub fn skip_ws_back(v: &[char], lo: usize, hi: usize) -> (k: usize)
    requires
        lo <= hi <= v@.len(),
    ensures
        lo <= k <= hi,
        hi - k == trail_ws(v@.subrange(lo as int, hi as int)),
{
    let mut k = hi;
    while k > lo && char_is_ws(v[k - 1])
        invariant
            lo <= k <= hi <= v@.len(),
            forall|i: int| k <= i < hi ==> is_ws(#[trigger] v@[i]),
        decreases k - lo,
    {
        k = k - 1;
    }
    proof {
        let s = v@.subrange(lo as int, hi as int);
        assert forall|i: int| s.len() - (hi - k) <= i < s.len() implies is_ws(#[trigger] s[i]) by {
            assert(s[i] == v@[lo + i]);
        }
        lemma_trail_ws(s, hi - k);
    }
    k
}

/// The bounds `[a, b)` of `trim(v[lo..hi])` inside `v`.
pub fn trim_bounds(v: &[char], lo: usize, hi: usize) -> (r: (usize, usize))
    requires
        lo <= hi <= v@.len(),
    ensures
        lo <= r.0 <= r.1 <= hi,
        v@.subrange(r.0 as int, r.1 as int) == trim(v@.subrange(lo as int, hi as int)),
        v@.subrange(r.0 as int, hi as int) == trim_start(v@.subrange(lo as int, hi as int)),
{
    let a = skip_ws(v, lo, hi);
    let b = skip_ws_back(v, a, hi);
    proof {
        let s = v@.subrange(lo as int, hi as int);
        assert(trim_start(s) =~= v@.subrange(a as int, hi as int));
        assert(trim(s) =~= v@.subrange(a as int, b as int));
    }
    (a, b)
}

/// `trim(v)` as a new vector.
pub fn trim_chars(v: &[char]) -> (r: Vec<char>)
    ensures
        r@ == trim(v@),
{
    let (a, b) = trim_bounds(v, 0, v.len());
    assert(v@.subrange(0, v@.len() as int) =~= v@);
    slice_vec(v, a, b)
}

/// `v[lo..hi]` as a new vector.
pub fn slice_vec(v: &[char], lo: usize, hi: usize) -> (r: Vec<char>)
    requires
        lo <= hi <= v@.len(),
    ensures
        r@ == v@.subrange(lo as int, hi as int),
{
    let mut r: Vec<char> = Vec::new();
    let mut i = lo;
    while i < hi
        invariant
            lo <= i <= hi <= v@.len(),
            r@ == v@.subrange(lo as int, i as int),
        decreases hi - i,
    {
        r.push(v[i]);
        assert(v@.subrange(lo as int, i as int).push(v@[i as int]) =~= v@.subrange(
            lo as int,
            i + 1,
        ));
        i = i + 1;
    }
    r
}

/// `p` occurs in `s` at index `i`.
pub open spec fn matches_at(s: Seq<char>, p: Seq<char>, i: int) -> bool {
    0 <= i && i + p.len() <= s.len() && s.subrange(i, i + p.len()) == p
}

/// The first occurrence of `p` in `s` at or after `i`.
pub open spec fn find_from(s: Seq<char>, p: Seq<char>, i: int) -> Option<int>
    decreases s.len() + 1 - i,
{
    if i < 0 || i + p.len() > s.len() {
        None
    } else if matches_at(s, p, i) {
        Some(i)
    } else {
        find_from(s, p, i + 1)
    }
}

/// The first occurrence of `p` in `s` (`str::find`, counted in characters).
pub open spec fn find(s: Seq<char>, p: Seq<char>) -> Option<int> {
    find_from(s, p, 0)
}

pub proof fn lemma_find_from_props(s: Seq<char>, p: Seq<char>, i: int)
    requires
        0 <= i,
    ensures
        find_from(s, p, i) matches Some(k) ==> i <= k && matches_at(s, p, k) && forall|j: int|
            i <= j < k ==> !matches_at(s, p, j),
        find_from(s, p, i) is None ==> forall|j: int| i <= j ==> !matches_at(s, p, j),
    decreases s.len() + 1 - i,
{
    if i + p.len() > s.len() {
    } else if matches_at(s, p, i) {
    } else {
        lemma_find_from_props(s, p, i + 1);
    }
}

/// Does `p` occur at `v[i..]`?
pub fn match_at(v: &[char], p: &[char], i: usize) -> (b: bool)
    ensures
        b == matches_at(v@, p@, i as int),
{
    if i > v.len() || p.len() > v.len() - i {
        return false;
    }
    let mut j: usize = 0;
    while j < p.len()
        invariant
            i + p.len() <= v.len(),
            j <= p@.len(),
            forall|k: int| 0 <= k < j ==> v@[i + k] == p@[k],
        decreases p@.len() - j,
    {
        if v[i + j] != p[j] {
            assert(v@.subrange(i as int, i + p@.len())[j as int] != p@[j as int]);
            return false;
        }
        j = j + 1;
    }
    assert(v@.subrange(i as int, i + p@.len()) =~= p@);
    true
}

/// The first occurrence of `p` in `v` at or after `from`.
pub fn find_from_exec(v: &[char], p: &[char], from: usize) -> (r: Option<usize>)
    ensures
        r matches Some(k) ==> find_from(v@, p@, from as int) == Some(k as int),
        r is None ==> find_from(v@, p@, from as int) is None,
{
    if from > v.len() {
        return None;
    }
    let mut i = from;
    while i < v.len()
        invariant
            from <= i <= v.len(),
            find_from(v@, p@, from as int) == find_from(v@, p@, i as int),
        decreases v@.len() - i,
    {
        if match_at(v, p, i) {
            return Some(i);
        }
        if p.len() > v.len() - i {
            return None;
        }
        i = i + 1;
    }
    if match_at(v, p, i) {
        Some(i)
    } else {
        assert(find_from(v@, p@, i + 1) is None);
        None
    }
}

/// `s` split at every occurrence of `c` (`str::split` with a char).
pub open spec fn split(s: Seq<char>, c: char) -> Seq<Seq<char>>
    decreases s.len(),
{
    if s.len() == 0 {
        seq![Seq::empty()]
    } else {
        let prev = split(s.drop_last(), c);
        if s.last() == c {
            prev.push(Seq::empty())
        } else {
            prev.update(prev.len() - 1, prev.last().push(s.last()))
        }
    }
}

/// No piece of a split holds the separator.
pub proof fn lemma_split_pieces_lack(s: Seq<char>, c: char)
    ensures
        forall|i: int| 0 <= i < split(s, c).len() ==> !(#[trigger] split(s, c)[i]).contains(c),
    decreases s.len(),
{
    if s.len() > 0 {
        lemma_split_pieces_lack(s.drop_last(), c);
        lemma_split_nonempty(s.drop_last(), c);
        let prev = split(s.drop_last(), c);
        if s.last() != c {
            let l = prev.last().push(s.last());
            assert(!l.contains(c)) by {
                assert(!prev[prev.len() - 1].contains(c));
                assert forall|k: int| 0 <= k < l.len() implies l[k] != c by {
                    if k < l.len() - 1 {
                        assert(l[k] == prev.last()[k]);
                    }
                }
            }
            assert forall|i: int| 0 <= i < split(s, c).len() implies !(#[trigger] split(s, c)[i]).contains(c) by {
                if i < prev.len() - 1 {
                    assert(split(s, c)[i] == prev[i]);
                }
            }
        } else {
            assert forall|i: int| 0 <= i < split(s, c).len() implies !(#[trigger] split(s, c)[i]).contains(c) by {
                if i < prev.len() {
                    assert(split(s, c)[i] == prev[i]);
                } else {
                    assert(split(s, c)[i] =~= Seq::<char>::empty());
                }
            }
        }
    }
}

/// Text without the separator extends the last piece.
pub proof fn lemma_split_extend(a: Seq<char>, b: Seq<char>, c: char)
    requires
        !b.contains(c),
    ensures
        split(a + b, c) == split(a, c).update(split(a, c).len() - 1, split(a, c).last() + b),
    decreases b.len(),
{
    lemma_split_nonempty(a, c);
    if b.len() == 0 {
        assert(a + b =~= a);
        assert(split(a, c).last() + b =~= split(a, c).last());
        assert(split(a, c).update(split(a, c).len() - 1, split(a, c).last()) =~= split(a, c));
    } else {
        let b0 = b.drop_last();
        assert(!b0.contains(c)) by {
            assert forall|k: int| 0 <= k < b0.len() implies b0[k] != c by {
                assert(b0[k] == b[k]);
            }
        }
        lemma_split_extend(a, b0, c);
        assert((a + b).drop_last() =~= a + b0);
        assert((a + b).last() == b.last());
        assert(b.last() != c) by {
            assert(b[b.len() - 1] == b.last());
        }
        let p = split(a, c);
        assert(split(a + b, c) =~= p.update(p.len() - 1, p.last() + b)) by {
            assert((p.last() + b0).push(b.last()) =~= p.last() + b);
        }
    }
}

/// Splitting joined pieces that lack the separator gives them back.
pub proof fn lemma_split_join(parts: Seq<Seq<char>>, c: char)
    requires
        parts.len() >= 1,
        forall|i: int| 0 <= i < parts.len() ==> !(#[trigger] parts[i]).contains(c),
    ensures
        split(join(parts, seq![c]), c) == parts,
    decreases parts.len(),
{
    if parts.len() == 1 {
        lemma_split_extend(Seq::empty(), parts[0], c);
        assert(Seq::<char>::empty() + parts[0] =~= parts[0]);
        assert(Seq::<char>::empty() + parts[0] =~= parts[0]);
        assert(split(Seq::<char>::empty(), c).update(0, Seq::<char>::empty() + parts[0]) =~= parts);
    } else {
        let init = parts.drop_last();
        assert forall|i: int| 0 <= i < init.len() implies !(#[trigger] init[i]).contains(c) by {
            assert(init[i] == parts[i]);
        }
        lemma_split_join(init, c);
        let j0 = join(init, seq![c]);
        let a = j0 + seq![c];
        assert(a.drop_last() =~= j0);
        assert(split(a, c) == init.push(Seq::<char>::empty()));
        assert(!parts.last().contains(c)) by {
            assert(parts[parts.len() - 1] == parts.last());
        }
        lemma_split_extend(a, parts.last(), c);
        assert(join(parts, seq![c]) =~= a + parts.last());
        assert(Seq::<char>::empty() + parts.last() =~= parts.last());
        assert(init.push(Seq::<char>::empty()).update(init.len() as int, Seq::<char>::empty() + parts.last()) =~= parts);
    }
}

pub proof fn lemma_split_nonempty(s: Seq<char>, c: char)
    ensures
        split(s, c).len() >= 1,
    decreases s.len(),
{
    if s.len() > 0 {
        lemma_split_nonempty(s.drop_last(), c);
    }
}

/// `s` split at `c` into vectors.
pub fn split_chars(v: &[char], c: char) -> (r: Vec<Vec<char>>)
    ensures
        r@.len() == split(v@, c).len(),
        forall|i: int| 0 <= i < r@.len() ==> #[trigger] r@[i]@ == split(v@, c)[i],
{
    let mut r: Vec<Vec<char>> = Vec::new();
    r.push(Vec::new());
    let mut i: usize = 0;
    while i < v.len()
        invariant
            i <= v@.len(),
            r@.len() >= 1,
            r@.len() == split(v@.take(i as int), c).len(),
            forall|k: int| 0 <= k < r@.len() ==> #[trigger] r@[k]@ == split(v@.take(i as int), c)[k],
        decreases v@.len() - i,
    {
        let ghost prev = split(v@.take(i as int), c);
        assert(v@.take(i + 1).drop_last() =~= v@.take(i as int));
        if v[i] == c {
            r.push(Vec::new());
        } else {
            let last = r.len() - 1;
            let mut tail = r.pop().unwrap();
            tail.push(v[i]);
            r.push(tail);
            assert(r@.len() == prev.len());
            assert forall|k: int| 0 <= k < r@.len() implies #[trigger] r@[k]@ == split(
                v@.take(i + 1),
                c,
            )[k] by {}
        }
        i = i + 1;
    }
    assert(v@.take(v@.len() as int) =~= v@);
    r
}


/// Character-sequence equality.
pub fn chars_eq(a: &[char], b: &[char]) -> (r: bool)
    ensures
        r == (a@ == b@),
{
    if a.len() != b.len() {
        return false;
    }
    let mut i: usize = 0;
    while i < a.len()
        invariant
            a@.len() == b@.len(),
            i <= a@.len(),
            forall|k: int| 0 <= k < i ==> a@[k] == b@[k],
        decreases a@.len() - i,
    {
        if a[i] != b[i] {
            return false;
        }
        i = i + 1;
    }
    assert(a@ =~= b@);
    true
}

/// The pieces joined with `sep` between consecutive ones (`join`).
pub open spec fn join(parts: Seq<Seq<char>>, sep: Seq<char>) -> Seq<char>
    decreases parts.len(),
{
    if parts.len() == 0 {
        Seq::empty()
    } else if parts.len() == 1 {
        parts[0]
    } else {
        join(parts.drop_last(), sep) + sep + parts.last()
    }
}

/// The pieces joined with `sep` into a new vector.
pub fn join_chars(parts: &Vec<Vec<char>>, sep: &[char]) -> (r: Vec<char>)
    ensures
        r@ == join(parts@.map_values(|p: Vec<char>| p@), sep@),
{
    let ghost ps = parts@.map_values(|p: Vec<char>| p@);
    let mut r: Vec<char> = Vec::new();
    let mut i: usize = 0;
    while i < parts.len()
        invariant
            i <= parts@.len(),
            ps == parts@.map_values(|p: Vec<char>| p@),
            r@ == join(ps.take(i as int), sep@),
        decreases parts@.len() - i,
    {
        assert(ps.take(i + 1).drop_last() =~= ps.take(i as int));
        if i > 0 {
            let mut k: usize = 0;
            let ghost r0 = r@;
            while k < sep.len()
                invariant
                    k <= sep@.len(),
                    r@ == r0 + sep@.take(k as int),
                decreases sep@.len() - k,
            {
                r.push(sep[k]);
                assert(sep@.take(k as int).push(sep@[k as int]) =~= sep@.take(k + 1));
                k = k + 1;
            }
            assert(sep@.take(sep@.len() as int) =~= sep@);
        }
        let ghost r1 = r@;
        let part = &parts[i];
        let mut k: usize = 0;
        while k < part.len()
            invariant
                k <= part@.len(),
                r@ == r1 + part@.take(k as int),
            decreases part@.len() - k,
        {
            r.push(part[k]);
            assert(part@.take(k as int).push(part@[k as int]) =~= part@.take(k + 1));
            k = k + 1;
        }
        assert(part@.take(part@.len() as int) =~= part@);
        proof {
            if i == 0 {
                assert(ps.take(1) =~= seq![ps[0]]);
            }
        }
        i = i + 1;
    }
    assert(ps.take(parts@.len() as int) =~= ps);
    r
}


/// A line without one trailing carriage return.
pub open spec fn strip_cr(l: Seq<char>) -> Seq<char> {
    if l.len() > 0 && l.last() == '\r' {
        l.drop_last()
    } else {
        l
    }
}

/// `str::lines`: split at `\n`; a line ended by `\n` loses one trailing
/// `\r`; no empty line after a final newline.
pub open spec fn lines_of(s: Seq<char>) -> Seq<Seq<char>> {
    let p = split(s, '\n');
    if s.len() == 0 {
        Seq::empty()
    } else if s.last() == '\n' {
        p.drop_last().map_values(|l: Seq<char>| strip_cr(l))
    } else {
        p.drop_last().map_values(|l: Seq<char>| strip_cr(l)).push(p.last())
    }
}

/// The lines of `v` (`str::lines`).
pub fn lines_chars(v: &[char]) -> (r: Vec<Vec<char>>)
    ensures
        r@.len() == lines_of(v@).len(),
        forall|i: int| 0 <= i < r@.len() ==> #[trigger] r@[i]@ == lines_of(v@)[i],
{
    if v.len() == 0 {
        return Vec::new();
    }
    let parts = split_chars(v, '\n');
    proof {
        lemma_split_nonempty(v@, '\n');
    }
    let ghost p = split(v@, '\n');
    let n = parts.len();
    let mut r: Vec<Vec<char>> = Vec::new();
    let mut i: usize = 0;
    while i + 1 < n
        invariant
            n == parts@.len() == p.len() >= 1,
            forall|k: int| 0 <= k < parts@.len() ==> #[trigger] parts@[k]@ == p[k],
            i + 1 <= n,
            r@.len() == i,
            forall|k: int| 0 <= k < i ==> #[trigger] r@[k]@ == strip_cr(p[k]),
        decreases n - i,
    {
        let l = &parts[i];
        let k = l.len();
        if k > 0 && l[k - 1] == '\r' {
            r.push(slice_vec(l, 0, k - 1));
        } else {
            r.push(slice_vec(l, 0, k));
            assert(l@.subrange(0, k as int) =~= l@);
        }
        i = i + 1;
    }
    if v[v.len() - 1] != '\n' {
        let l = &parts[n - 1];
        r.push(slice_vec(l, 0, l.len()));
        assert(l@.subrange(0, l@.len() as int) =~= l@);
    }
    proof {
        let want = lines_of(v@);
        assert(r@.len() == want.len());
    }
    r
}

/// Does `s` start with `p`?
pub open spec fn starts_with(s: Seq<char>, p: Seq<char>) -> bool {
    p.len() <= s.len() && s.take(p.len() as int) == p
}

/// Does `s` end with `p`?
pub open spec fn ends_with(s: Seq<char>, p: Seq<char>) -> bool {
    p.len() <= s.len() && s.skip(s.len() - p.len()) == p
}

pub fn starts_with_exec(v: &[char], p: &[char]) -> (b: bool)
    ensures
        b == starts_with(v@, p@),
{
    let r = match_at(v, p, 0);
    proof {
        if p@.len() <= v@.len() {
            assert(v@.subrange(0, p@.len() as int) =~= v@.take(p@.len() as int));
        }
    }
    r
}

pub fn ends_with_exec(v: &[char], p: &[char]) -> (b: bool)
    ensures
        b == ends_with(v@, p@),
{
    if p.len() > v.len() {
        return false;
    }
    let r = match_at(v, p, v.len() - p.len());
    proof {
        assert(v@.subrange(v@.len() - p@.len(), v@.len() as int) =~= v@.skip(v@.len() - p@.len()));
    }
    r
}

/// Is every character whitespace (the trimmed text empty)?
pub fn is_blank(v: &[char]) -> (b: bool)
    ensures
        b == (trim(v@).len() == 0),
{
    let (a, c) = trim_bounds(v, 0, v.len());
    assert(v@.subrange(0, v@.len() as int) =~= v@);
    a == c
}


/// The decimal digit character of `d` (0..10).
pub open spec fn digit_char(d: int) -> char {
    (48 + d) as char
}

/// The decimal representation of `n`, without leading zeros.
pub open spec fn decimal(n: nat) -> Seq<char>
    decreases n,
{
    if n < 10 {
        seq![digit_char(n as int)]
    } else {
        decimal(n / 10).push(digit_char((n % 10) as int))
    }
}

/// Appends the decimal representation of `n`.
pub fn push_decimal(out: &mut Vec<char>, n: u64)
    ensures
        final(out)@ == old(out)@ + decimal(n as nat),
    decreases n,
{
    if n >= 10 {
        push_decimal(out, n / 10);
    }
    let d = (n % 10) as u8;
    out.push((48u8 + d) as char);
    proof {
        assert(old(out)@ + decimal(n as nat) =~= out@) by {
            if n >= 10 {
                assert(decimal(n as nat) == decimal((n / 10) as nat).push(digit_char((n % 10) as int)));
            }
        }
    }
}


/// Searching a suffix is searching the whole text from the suffix's start.
pub proof fn lemma_find_skip(s: Seq<char>, p: Seq<char>, a: int, j: int)
    requires
        0 <= a <= s.len(),
        0 <= j,
    ensures
        find_from(s.skip(a), p, j) matches Some(k) ==> find_from(s, p, a + j) == Some(k + a),
        find_from(s.skip(a), p, j) is None ==> find_from(s, p, a + j) is None,
    decreases s.len() + 1 - (a + j),
{
    let t = s.skip(a);
    if j + p.len() > t.len() {
    } else {
        assert(t.subrange(j, j + p.len()) =~= s.subrange(a + j, a + j + p.len()));
        if !matches_at(t, p, j) {
            lemma_find_skip(s, p, a, j + 1);
        }
    }
}

/// The first occurrence of `p` in `s.skip(a)`, as an offset into the suffix.
pub fn find_in_suffix(v: &[char], p: &[char], a: usize) -> (r: Option<usize>)
    requires
        a <= v@.len(),
    ensures
        r matches Some(k) ==> find(v@.skip(a as int), p@) == Some(k as int),
        r is None ==> find(v@.skip(a as int), p@) is None,
{
    proof {
        lemma_find_skip(v@, p@, a as int, 0);
        lemma_find_from_props(v@, p@, a as int);
    }
    match find_from_exec(v, p, a) {
        None => None,
        Some(k) => Some(k - a),
    }
}

/// Every character satisfies `p`'s complement at the ends: the count of
/// leading characters equal to `c`.
pub open spec fn lead_char(s: Seq<char>, c: char) -> nat
    decreases s.len(),
{
    if s.len() > 0 && s[0] == c {
        1 + lead_char(s.drop_first(), c)
    } else {
        0
    }
}

/// The count of trailing characters equal to `c`.
pub open spec fn trail_char(s: Seq<char>, c: char) -> nat
    decreases s.len(),
{
    if s.len() > 0 && s.last() == c {
        1 + trail_char(s.drop_last(), c)
    } else {
        0
    }
}

/// `str::trim_matches(c)`: every leading and trailing `c` removed.
pub open spec fn trim_char(s: Seq<char>, c: char) -> Seq<char> {
    let t = s.skip(lead_char(s, c) as int);
    t.take(t.len() - trail_char(t, c))
}

pub proof fn lemma_lead_char(s: Seq<char>, c: char, k: int)
    requires
        0 <= k <= s.len(),
        forall|i: int| 0 <= i < k ==> #[trigger] s[i] == c,
        k < s.len() ==> s[k] != c,
    ensures
        lead_char(s, c) == k,
    decreases s.len(),
{
    if k > 0 {
        assert forall|i: int| 0 <= i < k - 1 implies #[trigger] s.drop_first()[i] == c by {
            assert(s[i + 1] == c);
        }
        lemma_lead_char(s.drop_first(), c, k - 1);
    }
}

pub proof fn lemma_trail_char(s: Seq<char>, c: char, k: int)
    requires
        0 <= k <= s.len(),
        forall|i: int| s.len() - k <= i < s.len() ==> #[trigger] s[i] == c,
        k < s.len() ==> s[s.len() - k - 1] != c,
    ensures
        trail_char(s, c) == k,
    decreases s.len(),
{
    if k > 0 {
        let t = s.drop_last();
        assert forall|i: int| t.len() - (k - 1) <= i < t.len() implies #[trigger] t[i] == c by {
            assert(s[i] == c);
        }
        lemma_trail_char(t, c, k - 1);
    }
}

/// `v[lo..hi]` with every leading and trailing `c` removed.
pub fn trim_char_range(v: &[char], lo: usize, hi: usize, c: char) -> (r: Vec<char>)
    requires
        lo <= hi <= v@.len(),
    ensures
        r@ == trim_char(v@.subrange(lo as int, hi as int), c),
{
    let ghost s = v@.subrange(lo as int, hi as int);
    let mut a = lo;
    while a < hi && v[a] == c
        invariant
            lo <= a <= hi <= v@.len(),
            forall|i: int| lo <= i < a ==> #[trigger] v@[i] == c,
        decreases hi - a,
    {
        a = a + 1;
    }
    proof {
        assert forall|i: int| 0 <= i < a - lo implies #[trigger] s[i] == c by {
            assert(s[i] == v@[lo + i]);
        }
        lemma_lead_char(s, c, a - lo);
    }
    let mut b = hi;
    while b > a && v[b - 1] == c
        invariant
            a <= b <= hi <= v@.len(),
            forall|i: int| b <= i < hi ==> #[trigger] v@[i] == c,
        decreases b - a,
    {
        b = b - 1;
    }
    proof {
        let t = s.skip(lead_char(s, c) as int);
        assert(t =~= v@.subrange(a as int, hi as int));
        assert forall|i: int| t.len() - (hi - b) <= i < t.len() implies #[trigger] t[i] == c by {
            assert(t[i] == v@[a + i]);
        }
        lemma_trail_char(t, c, hi - b);
        assert(trim_char(s, c) =~= v@.subrange(a as int, b as int));
    }
    slice_vec(v, a, b)
}

/// The whitespace-separated words of `s` (`split_whitespace`).
pub open spec fn words(s: Seq<char>) -> Seq<Seq<char>>
    decreases s.len(),
{
    if s.len() == 0 {
        Seq::empty()
    } else {
        let w = words(s.drop_last());
        if is_ws(s.last()) {
            w
        } else if s.len() >= 2 && !is_ws(s[s.len() - 2]) {
            w.update(w.len() - 1, w.last().push(s.last()))
        } else {
            w.push(seq![s.last()])
        }
    }
}

proof fn lemma_words_nonempty(s: Seq<char>)
    requires
        s.len() > 0,
        !is_ws(s.last()),
    ensures
        words(s).len() > 0,
    decreases s.len(),
{
    if s.len() >= 2 && !is_ws(s[s.len() - 2]) {
        lemma_words_nonempty(s.drop_last());
    }
}

/// The words of `v`.
pub fn words_chars(v: &[char]) -> (r: Vec<Vec<char>>)
    ensures
        r@.len() == words(v@).len(),
        forall|i: int| 0 <= i < r@.len() ==> #[trigger] r@[i]@ == words(v@)[i],
{
    let mut r: Vec<Vec<char>> = Vec::new();
    let mut i: usize = 0;
    while i < v.len()
        invariant
            i <= v@.len(),
            r@.len() == words(v@.take(i as int)).len(),
            forall|k: int| 0 <= k < r@.len() ==> #[trigger] r@[k]@ == words(v@.take(i as int))[k],
        decreases v@.len() - i,
    {
        assert(v@.take(i + 1).drop_last() =~= v@.take(i as int));
        let c = v[i];
        if char_is_ws(c) {
        } else if i >= 1 && !char_is_ws(v[i - 1]) {
            proof {
                let t = v@.take(i as int);
                assert(t.last() == v@[i - 1]);
                lemma_words_nonempty(t);
            }
            let mut last = r.pop().unwrap();
            last.push(c);
            r.push(last);
            assert forall|k: int| 0 <= k < r@.len() implies #[trigger] r@[k]@ == words(v@.take(i + 1))[k] by {}
        } else {
            let mut w: Vec<char> = Vec::new();
            w.push(c);
            r.push(w);
            assert(w@ =~= seq![c]);
        }
        i = i + 1;
    }
    assert(v@.take(v@.len() as int) =~= v@);
    r
}

/// Non-overlapping left-to-right replacement of `p` by `q` (`str::replace`).
pub open spec fn replace_all(s: Seq<char>, p: Seq<char>, q: Seq<char>) -> Seq<char>
    decreases s.len(),
{
    if p.len() == 0 {
        s
    } else {
        match find(s, p) {
            None => s,
            Some(i) => if 0 <= i && i + p.len() <= s.len() {
                s.take(i) + q + replace_all(s.skip(i + p.len()), p, q)
            } else {
                s
            },
        }
    }
}

/// `replace_all` on a vector.
pub fn replace_all_chars(v: &[char], p: &[char], q: &[char]) -> (r: Vec<char>)
    requires
        p@.len() > 0,
    ensures
        r@ == replace_all(v@, p@, q@),
{
    let mut out: Vec<char> = Vec::new();
    let mut pos: usize = 0;
    assert(v@.skip(0) =~= v@);
    while pos <= v.len()
        invariant
            pos <= v@.len() + 1,
            p@.len() > 0,
            pos <= v@.len() ==> replace_all(v@, p@, q@) == out@ + replace_all(v@.skip(pos as int), p@, q@),
            pos > v@.len() ==> replace_all(v@, p@, q@) == out@,
        decreases v@.len() + 1 - pos,
    {
        let ghost rest = v@.skip(pos as int);
        match find_in_suffix(v, p, pos) {
            None => {
                let tail = slice_vec(v, pos, v.len());
                let ghost o0 = out@;
                let mut k: usize = 0;
                while k < tail.len()
                    invariant
                        k <= tail@.len(),
                        out@ == o0 + tail@.take(k as int),
                    decreases tail@.len() - k,
                {
                    out.push(tail[k]);
                    assert(tail@.take(k as int).push(tail@[k as int]) =~= tail@.take(k + 1));
                    k = k + 1;
                }
                assert(tail@.take(tail@.len() as int) =~= tail@);
                assert(tail@ =~= rest);
                return out;
            },
            Some(k) => {
                proof {
                    lemma_find_from_props(rest, p@, 0);
                }
                let ghost o0 = out@;
                let mut t: usize = pos;
                let end = pos + k;
                while t < end
                    invariant
                        end == pos + k,
                        pos <= t <= pos + k <= v@.len(),
                        out@ == o0 + v@.subrange(pos as int, t as int),
                    decreases end - t,
                {
                    out.push(v[t]);
                    assert(v@.subrange(pos as int, t as int).push(v@[t as int]) =~= v@.subrange(pos as int, t + 1));
                    t = t + 1;
                }
                let mut u: usize = 0;
                let ghost o1 = out@;
                while u < q.len()
                    invariant
                        u <= q@.len(),
                        out@ == o1 + q@.take(u as int),
                    decreases q@.len() - u,
                {
                    out.push(q[u]);
                    assert(q@.take(u as int).push(q@[u as int]) =~= q@.take(u + 1));
                    u = u + 1;
                }
                assert(q@.take(q@.len() as int) =~= q@);
                assert(rest.take(k as int) =~= v@.subrange(pos as int, pos + k));
                assert(rest.skip(k + p@.len()) =~= v@.skip(pos + k + p@.len()));
                pos = pos + k + p.len();
            },
        }
    }
    out
}

/// `v` without its trailing `c` characters (`trim_end_matches(c)`).
pub fn trim_char_end(v: &[char], c: char) -> (r: Vec<char>)
    ensures
        r@ == v@.take(v@.len() - trail_char(v@, c)),
{
    let mut b = v.len();
    while b > 0 && v[b - 1] == c
        invariant
            b <= v@.len(),
            forall|i: int| b <= i < v@.len() ==> #[trigger] v@[i] == c,
        decreases b,
    {
        b = b - 1;
    }
    proof {
        lemma_trail_char(v@, c, v@.len() - b);
    }
    assert(v@.subrange(0, b as int) =~= v@.take(b as int));
    slice_vec(v, 0, b)
}

/// Appends the characters of `s` to `out`.
pub fn append_str(out: &mut Vec<char>, s: &str)
    ensures
        final(out)@ == old(out)@ + s@,
{
    let mut v = chars_of(s);
    out.append(&mut v);
}

/// Appends the characters of `v` to `out`.
pub fn append_chars(out: &mut Vec<char>, v: &[char])
    ensures
        final(out)@ == old(out)@ + v@,
{
    let mut w = slice_vec(v, 0, v.len());
    assert(v@.subrange(0, v@.len() as int) =~= v@);
    out.append(&mut w);
}

/// `s` without the prefix `p`, if it starts with it.
pub open spec fn strip_prefix(s: Seq<char>, p: Seq<char>) -> Option<Seq<char>> {
    if starts_with(s, p) {
        Some(s.skip(p.len() as int))
    } else {
        None
    }
}

/// `s` split around the first occurrence of `p` (`str::split_once`).
pub open spec fn split_once(s: Seq<char>, p: Seq<char>) -> Option<(Seq<char>, Seq<char>)> {
    match find(s, p) {
        Some(i) => Some((s.take(i), s.skip(i + p.len()))),
        None => None,
    }
}

/// `split_once` on a vector.
pub fn split_once_chars(v: &[char], p: &[char]) -> (r: Option<(Vec<char>, Vec<char>)>)
    ensures
        match (r, split_once(v@, p@)) {
            (Some((a, b)), Some((x, y))) => a@ == x && b@ == y,
            (None, None) => true,
            _ => false,
        },
{
    let n = v.len();
    match find_from_exec(v, p, 0) {
        None => None,
        Some(i) => {
            proof {
                lemma_find_from_props(v@, p@, 0);
            }
            let a = slice_vec(v, 0, i);
            let b = slice_vec(v, i + p.len(), n);
            assert(v@.subrange(0, i as int) =~= v@.take(i as int));
            assert(v@.subrange(i + p@.len(), n as int) =~= v@.skip(i + p@.len()));
            Some((a, b))
        },
    }
}

/// Lexicographic order of texts by code point (the order of `str`).
pub open spec fn text_lt(a: Seq<char>, b: Seq<char>) -> bool
    decreases a.len(),
{
    if a.len() == 0 {
        b.len() > 0
    } else if b.len() == 0 {
        false
    } else if a[0] != b[0] {
        a[0] < b[0]
    } else {
        text_lt(a.drop_first(), b.drop_first())
    }
}

pub proof fn lemma_text_lt_irrefl(a: Seq<char>)
    ensures
        !text_lt(a, a),
    decreases a.len(),
{
    if a.len() > 0 {
        lemma_text_lt_irrefl(a.drop_first());
    }
}

pub proof fn lemma_text_lt_total(a: Seq<char>, b: Seq<char>)
    ensures
        a != b ==> (text_lt(a, b) || text_lt(b, a)),
        !(text_lt(a, b) && text_lt(b, a)),
    decreases a.len(),
{
    if a.len() > 0 && b.len() > 0 {
        lemma_text_lt_total(a.drop_first(), b.drop_first());
        if a[0] == b[0] && a != b {
            assert(a =~= seq![a[0]] + a.drop_first());
            assert(b =~= seq![b[0]] + b.drop_first());
        }
    } else if a.len() == 0 && b.len() == 0 {
        assert(a =~= b);
    }
}

pub proof fn lemma_text_lt_trans(a: Seq<char>, b: Seq<char>, c: Seq<char>)
    requires
        text_lt(a, b),
        text_lt(b, c),
    ensures
        text_lt(a, c),
    decreases a.len(),
{
    if a.len() > 0 && b.len() > 0 && c.len() > 0 && a[0] == b[0] && b[0] == c[0] {
        lemma_text_lt_trans(a.drop_first(), b.drop_first(), c.drop_first());
    }
}

pub fn text_lt_exec(a: &[char], b: &[char]) -> (r: bool)
    ensures
        r == text_lt(a@, b@),
{
    let mut i: usize = 0;
    assert(a@.skip(0) =~= a@);
    assert(b@.skip(0) =~= b@);
    while i < a.len() && i < b.len() && a[i] == b[i]
        invariant
            i <= a@.len(),
            i <= b@.len(),
            text_lt(a@, b@) == text_lt(a@.skip(i as int), b@.skip(i as int)),
        decreases a@.len() - i,
    {
        assert(a@.skip(i as int).drop_first() =~= a@.skip(i + 1));
        assert(b@.skip(i as int).drop_first() =~= b@.skip(i + 1));
        i = i + 1;
    }
    if i == a.len() {
        i < b.len()
    } else if i == b.len() {
        false
    } else {
        a[i] < b[i]
    }
}

/// The first occurrence is where `p` matches with no match before.
pub proof fn lemma_find_at(s: Seq<char>, p: Seq<char>, k: int, i: int)
    requires
        0 <= i <= k,
        matches_at(s, p, k),
        forall|j: int| i <= j < k ==> !matches_at(s, p, j),
    ensures
        find_from(s, p, i) == Some(k),
    decreases k - i,
{
    if i < k {
        lemma_find_at(s, p, k, i + 1);
    }
}

/// A word after a space (or at the start) is appended whole.
pub proof fn lemma_words_token(p: Seq<char>, t: Seq<char>)
    requires
        t.len() > 0,
        forall|i: int| 0 <= i < t.len() ==> !is_ws(#[trigger] t[i]),
        p.len() == 0 || is_ws(p.last()),
    ensures
        words(p + t) == words(p).push(t),
    decreases t.len(),
{
    let s = p + t;
    assert(s.drop_last() =~= p + t.drop_last());
    if t.len() == 1 {
        assert(s.drop_last() =~= p);
        assert(t =~= seq![s.last()]);
    } else {
        lemma_words_token(p, t.drop_last());
        assert(s[s.len() - 2] == t[t.len() - 2]);
        assert(t.drop_last().push(t.last()) =~= t);
    }
}

/// A trailing space adds no word.
pub proof fn lemma_words_space(p: Seq<char>, c: char)
    requires
        is_ws(c),
    ensures
        words(p.push(c)) == words(p),
{
    assert(p.push(c).drop_last() =~= p);
}

/// A trimmed text starts and ends with non-whitespace.
pub proof fn lemma_trim_ends(o: Seq<char>)
    ensures
        trim(o).len() > 0 ==> !is_ws(trim(o)[0]) && !is_ws(trim(o).last()),
        lead_ws(trim(o)) == 0,
        trail_ws(trim(o)) == 0,
{
    let ts = trim_start(o);
    lemma_lead_ws_bound(o);
    lemma_trail_ws_bound(ts);
    let t = trim(o);
    if t.len() > 0 {
        assert(t[0] == ts[0]);
        assert(ts[0] == o[lead_ws(o) as int]);
        assert(t.last() == ts[ts.len() - trail_ws(ts) - 1]);
    }
}

/// Newlines around a trimmed text are trimmed away again.
pub proof fn lemma_trim_newlines(o: Seq<char>)
    ensures
        trim(seq!['\n'] + trim(o) + seq!['\n']) == trim(o),
{
    let t = trim(o);
    lemma_trim_ends(o);
    let x = seq!['\n'] + t + seq!['\n'];
    if t.len() == 0 {
        assert(x =~= seq!['\n', '\n']);
        lemma_lead_ws(x, 2);
        assert(trim_start(x) =~= Seq::<char>::empty());
    } else {
        assert(is_ws(x[0]));
        assert(x[1] == t[0]);
        lemma_lead_ws(x, 1);
        let ts = trim_start(x);
        assert(ts =~= t + seq!['\n']);
        assert(ts[ts.len() - 2] == t.last());
        lemma_trail_ws(ts, 1);
        assert(trim_end(ts) =~= t);
    }
}

/// Quotes around a quote-free text are trimmed exactly.
pub proof fn lemma_trim_quotes(x: Seq<char>, q: char)
    requires
        forall|i: int| 0 <= i < x.len() ==> #[trigger] x[i] != q,
    ensures
        trim_char(seq![q] + x + seq![q], q) == x,
{
    let s = seq![q] + x + seq![q];
    if x.len() == 0 {
        assert(s =~= seq![q, q]);
        lemma_lead_char(s, q, 2);
        assert(s.skip(2) =~= Seq::<char>::empty());
    } else {
        assert(s[1] == x[0]);
        lemma_lead_char(s, q, 1);
        let t = s.skip(1);
        assert(t =~= x + seq![q]);
        assert(t[t.len() - 2] == x.last());
        lemma_trail_char(t, q, 1);
        assert(t.take(t.len() - 1) =~= x);
    }
}

} // verus!

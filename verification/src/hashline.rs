//! Hash-anchored read/edit: every line of a file gets a 3-character anchor
//! from a 62-character alphabet. Uniqueness is allocated (a per-file bitmap
//! with stride probing), the anchor's base is derived from the line's
//! whitespace-free canon, unchanged lines keep their anchors across an edit,
//! and stale anchors are rejected, never fuzzy-matched.

use crate::text::{chars_eq, chars_of, join, join_chars, push_chars, slice_vec, split, split_chars, string_of};
use vstd::arithmetic::div_mod::*;
use vstd::prelude::*;

verus! {

broadcast use vstd::seq_lib::group_seq_properties;

/// The full anchor space: 62³.
pub const HASH_SPACE: usize = 238328;

/// Collision-probing stride (62² + 62 + 1, coprime with the space).
pub const STRIDE: usize = 3907;

/// The separator between anchor and content in rendered rows.
pub const SEP: char = '│';

/// The anchor digit `d` (0..62): `A-Z`, then `a-z`, then `0-9`.
pub open spec fn alpha_char(d: int) -> char {
    if d < 26 {
        (65 + d) as char
    } else if d < 52 {
        (97 + d - 26) as char
    } else {
        (48 + d - 52) as char
    }
}

/// The digit value of an anchor character, if it is one.
pub open spec fn digit_of(c: char) -> Option<int> {
    let u = c as u32;
    if 65 <= u <= 90 {
        Some(u - 65)
    } else if 97 <= u <= 122 {
        Some(u - 97 + 26)
    } else if 48 <= u <= 57 {
        Some(u - 48 + 52)
    } else {
        None
    }
}

/// The anchor of slot `idx`: its three base-62 digits, most significant first.
pub open spec fn idx_to_hash(idx: int) -> Seq<char> {
    seq![alpha_char((idx / 3844) % 62), alpha_char((idx / 62) % 62), alpha_char(idx % 62)]
}

/// The slot of an anchor, if it is exactly three alphabet characters.
pub open spec fn hash_to_idx(h: Seq<char>) -> Option<int> {
    if h.len() == 3 && digit_of(h[0]) is Some && digit_of(h[1]) is Some && digit_of(h[2]) is Some {
        Some(digit_of(h[0])->0 * 3844 + digit_of(h[1])->0 * 62 + digit_of(h[2])->0)
    } else {
        None
    }
}

pub proof fn lemma_digit_round_trip(d: int)
    requires
        0 <= d < 62,
    ensures
        digit_of(alpha_char(d)) == Some(d),
{
}

pub proof fn lemma_alpha_of_digit(x: char)
    requires
        digit_of(x) is Some,
    ensures
        alpha_char(digit_of(x)->0) == x,
{
    let u = x as u32;
    assert((u as char) == x);
}

/// Decoding inverts encoding on the anchor space.
pub proof fn lemma_idx_hash_round_trip(i: int)
    requires
        0 <= i < HASH_SPACE,
    ensures
        hash_to_idx(idx_to_hash(i)) == Some(i),
{
    let d0 = (i / 3844) % 62;
    let d1 = (i / 62) % 62;
    let d2 = i % 62;
    lemma_digit_round_trip(d0);
    lemma_digit_round_trip(d1);
    lemma_digit_round_trip(d2);
    assert(d0 * 3844 + d1 * 62 + d2 == i) by (nonlinear_arith)
        requires
            0 <= i < 238328,
            d0 == (i / 3844) % 62,
            d1 == (i / 62) % 62,
            d2 == i % 62,
    ;
}

/// Encoding inverts decoding: a well-formed anchor is the anchor of its slot.
pub proof fn lemma_hash_idx_round_trip(h: Seq<char>)
    requires
        hash_to_idx(h) is Some,
    ensures
        0 <= hash_to_idx(h)->0 < HASH_SPACE,
        idx_to_hash(hash_to_idx(h)->0) == h,
{
    let a = digit_of(h[0])->0;
    let b = digit_of(h[1])->0;
    let c = digit_of(h[2])->0;
    let i = a * 3844 + b * 62 + c;
    assert((i / 3844) % 62 == a && (i / 62) % 62 == b && i % 62 == c) by (nonlinear_arith)
        requires
            0 <= a < 62,
            0 <= b < 62,
            0 <= c < 62,
            i == a * 3844 + b * 62 + c,
    ;
    lemma_alpha_of_digit(h[0]);
    lemma_alpha_of_digit(h[1]);
    lemma_alpha_of_digit(h[2]);
    assert(idx_to_hash(i) =~= h);
}

/// Distinct slots have distinct anchors.
pub proof fn lemma_idx_to_hash_injective(i: int, j: int)
    requires
        0 <= i < HASH_SPACE,
        0 <= j < HASH_SPACE,
        i != j,
    ensures
        idx_to_hash(i) != idx_to_hash(j),
{
    lemma_idx_hash_round_trip(i);
    lemma_idx_hash_round_trip(j);
}

fn alpha_char_exec(d: usize) -> (c: char)
    requires
        d < 62,
    ensures
        c == alpha_char(d as int),
{
    if d < 26 {
        ((65 + d) as u8) as char
    } else if d < 52 {
        ((97 + d - 26) as u8) as char
    } else {
        ((48 + d - 52) as u8) as char
    }
}

fn digit_of_exec(c: char) -> (r: Option<usize>)
    ensures
        r matches Some(d) ==> digit_of(c) == Some(d as int),
        r is None ==> digit_of(c) is None,
{
    let u = c as u32;
    if 65 <= u && u <= 90 {
        Some((u - 65) as usize)
    } else if 97 <= u && u <= 122 {
        Some((u - 97 + 26) as usize)
    } else if 48 <= u && u <= 57 {
        Some((u - 48 + 52) as usize)
    } else {
        None
    }
}

fn idx_to_hash_exec(idx: usize) -> (h: Vec<char>)
    requires
        idx < HASH_SPACE,
    ensures
        h@ == idx_to_hash(idx as int),
{
    let mut h: Vec<char> = Vec::new();
    h.push(alpha_char_exec((idx / 3844) % 62));
    h.push(alpha_char_exec((idx / 62) % 62));
    h.push(alpha_char_exec(idx % 62));
    assert(h@ =~= idx_to_hash(idx as int));
    h
}

fn hash_to_idx_exec(h: &[char]) -> (r: Option<usize>)
    ensures
        r matches Some(i) ==> hash_to_idx(h@) == Some(i as int),
        r is None ==> hash_to_idx(h@) is None,
{
    if h.len() != 3 {
        return None;
    }
    let a = digit_of_exec(h[0])?;
    let b = digit_of_exec(h[1])?;
    let c = digit_of_exec(h[2])?;
    Some(a * 3844 + b * 62 + c)
}


/// Characters the canon drops: space, tab, carriage return, newline.
pub open spec fn is_canon_blank(c: char) -> bool {
    c == ' ' || c == '\t' || c == '\r' || c == '\n'
}

/// The canon of a line: the line with all blanks removed, so reformatting
/// never changes an anchor.
pub open spec fn canon_of(s: Seq<char>) -> Seq<char>
    decreases s.len(),
{
    if s.len() == 0 {
        Seq::empty()
    } else if is_canon_blank(s.last()) {
        canon_of(s.drop_last())
    } else {
        canon_of(s.drop_last()).push(s.last())
    }
}

/// CRLF and lone CR line endings, each turned into LF.
pub open spec fn normalize_of(s: Seq<char>) -> Seq<char>
    decreases s.len(),
{
    if s.len() == 0 {
        Seq::empty()
    } else if s.len() >= 2 && s.last() == '\n' && s[s.len() - 2] == '\r' {
        normalize_of(s.take(s.len() - 2)).push('\n')
    } else if s.last() == '\r' {
        normalize_of(s.drop_last()).push('\n')
    } else {
        normalize_of(s.drop_last()).push(s.last())
    }
}

proof fn lemma_normalize_no_cr(s: Seq<char>)
    ensures
        !normalize_of(s).contains('\r'),
    decreases s.len(),
{
    if s.len() > 0 {
        let prev = if s.len() >= 2 && s.last() == '\n' && s[s.len() - 2] == '\r' {
            s.take(s.len() - 2)
        } else {
            s.drop_last()
        };
        lemma_normalize_no_cr(prev);
        let n = normalize_of(s);
        assert(n.drop_last() =~= normalize_of(prev));
        assert forall|i: int| 0 <= i < n.len() implies n[i] != '\r' by {
            if i < n.len() - 1 {
                assert(n[i] == normalize_of(prev)[i]);
            }
        }
    }
}

proof fn lemma_normalize_keeps_cr_free(s: Seq<char>)
    requires
        !s.contains('\r'),
    ensures
        normalize_of(s) == s,
    decreases s.len(),
{
    if s.len() > 0 {
        assert(s[s.len() - 2] != '\r' || s.len() < 2);
        assert(s.last() != '\r');
        assert(!s.drop_last().contains('\r')) by {
            assert forall|i: int| 0 <= i < s.drop_last().len() implies s.drop_last()[i] != '\r' by {
                assert(s.drop_last()[i] == s[i]);
            }
        }
        lemma_normalize_keeps_cr_free(s.drop_last());
        assert(s.drop_last().push(s.last()) =~= s);
    }
}

/// Normalizing leaves no carriage return, leaves a text without one as it
/// is, and so changes nothing the second time.
pub proof fn lemma_normalize_is_idempotent(s: Seq<char>)
    ensures
        !normalize_of(s).contains('\r'),
        !s.contains('\r') ==> normalize_of(s) == s,
        normalize_of(normalize_of(s)) == normalize_of(s),
{
    lemma_normalize_no_cr(s);
    lemma_normalize_keeps_cr_free(normalize_of(s));
    if !s.contains('\r') {
        lemma_normalize_keeps_cr_free(s);
    }
}

/// The lines of a file: `split('\n')` without the empty piece after a final
/// newline; an empty file is one empty line.
pub open spec fn split_lines_of(s: Seq<char>) -> Seq<Seq<char>> {
    if s.len() == 0 {
        seq![Seq::empty()]
    } else if split(s, '\n').last().len() == 0 {
        split(s, '\n').drop_last()
    } else {
        split(s, '\n')
    }
}

fn canon_chars(v: &[char]) -> (r: Vec<char>)
    ensures
        r@ == canon_of(v@),
{
    let mut r: Vec<char> = Vec::new();
    let mut i: usize = 0;
    while i < v.len()
        invariant
            i <= v@.len(),
            r@ == canon_of(v@.take(i as int)),
        decreases v@.len() - i,
    {
        assert(v@.take(i + 1).drop_last() =~= v@.take(i as int));
        let c = v[i];
        if !(c == ' ' || c == '\t' || c == '\r' || c == '\n') {
            r.push(c);
        }
        i = i + 1;
    }
    assert(v@.take(v@.len() as int) =~= v@);
    r
}

/// The canon of `line`: all spaces, tabs, carriage returns and newlines removed.
pub fn canon(line: &str) -> (r: String)
    ensures
        r@ == canon_of(line@),
{
    let v = chars_of(line);
    let c = canon_chars(&v);
    string_of(&c)
}

/// CRLF (and lone CR) line endings become LF.
pub fn normalize(content: &str) -> (r: String)
    ensures
        r@ == normalize_of(content@),
{
    let v = chars_of(content);
    let mut out: Vec<char> = Vec::new();
    let mut i: usize = 0;
    while i < v.len()
        invariant
            i <= v@.len(),
            v@ == content@,
            out@ == normalize_of(v@.take(i as int)),
            0 < i < v@.len() ==> !(v@[i - 1] == '\r' && v@[i as int] == '\n'),
        decreases v@.len() - i,
    {
        if v[i] == '\r' && i + 1 < v.len() && v[i + 1] == '\n' {
            assert(v@.take(i + 2).take(i as int) =~= v@.take(i as int));
            out.push('\n');
            i = i + 2;
        } else {
            assert(v@.take(i + 1).drop_last() =~= v@.take(i as int));
            if v[i] == '\r' {
                out.push('\n');
            } else {
                out.push(v[i]);
            }
            i = i + 1;
        }
    }
    assert(v@.take(v@.len() as int) =~= v@);
    string_of(&out)
}

fn split_lines_chars(v: &[char]) -> (r: Vec<Vec<char>>)
    ensures
        r@.len() == split_lines_of(v@).len(),
        forall|i: int| 0 <= i < r@.len() ==> #[trigger] r@[i]@ == split_lines_of(v@)[i],
{
    let mut parts = split_chars(v, '\n');
    if v.len() == 0 {
        return parts;
    }
    proof {
        crate::text::lemma_split_nonempty(v@, '\n');
    }
    let n = parts.len();
    if parts[n - 1].len() == 0 {
        parts.pop();
    }
    parts
}

/// `xxh32` of the bytes, as the xxhash-rust crate computes it.
pub uninterp spec fn spec_xxh32(input: Seq<u8>, seed: u32) -> u32;

/// `xxhash_rust::xxh32::xxh32`: the 32-bit xxHash of `input` with `seed`.
/// The result is taken as a function of the bytes and the seed; nothing
/// more is claimed of it.
#[verifier::external_body]
fn xxh32(input: &[u8], seed: u32) -> (r: u32)
    ensures
        r == spec_xxh32(input@, seed),
{
    xxhash_rust::xxh32::xxh32(input, seed)
}

/// The base slot of a line: `xxh32(canon) >> 14`, reduced into the space.
pub open spec fn base_of(line: Seq<char>) -> int {
    ((spec_xxh32(vstd::utf8::encode_utf8(canon_of(line)), 0) >> 14u32) as int) % (HASH_SPACE as int)
}

fn base_exec(line: &[char]) -> (r: usize)
    ensures
        r as int == base_of(line@),
        r < HASH_SPACE,
{
    let c = canon_chars(line);
    let s = string_of(&c);
    let h = xxh32(s.as_str().as_bytes(), 0);
    ((h >> 14) % 238328u32) as usize
}

/// The slot probed at step `j` from `start`.
pub open spec fn probe_slot(start: int, j: int) -> int {
    (start + j * (STRIDE as int)) % (HASH_SPACE as int)
}

/// The first free slot on the stride orbit from `start`, probing steps `j..`.
pub open spec fn probe_from(used: Seq<int>, start: int, j: int) -> Option<int>
    decreases HASH_SPACE - j,
{
    if j < 0 || j >= HASH_SPACE {
        None
    } else if !used.contains(probe_slot(start, j)) {
        Some(probe_slot(start, j))
    } else {
        probe_from(used, start, j + 1)
    }
}

/// The first slot outside `used` on the stride orbit from `start`.
pub open spec fn probe(used: Seq<int>, start: int) -> Option<int> {
    probe_from(used, start, 0)
}

/// The allocation of slots to lines with these base slots: a free base is
/// taken as is, a taken one probes from the running hint. Also returns the
/// final hint. `None` when a probe finds the space full.
pub open spec fn allocate(bases: Seq<int>) -> Option<(Seq<int>, int)>
    decreases bases.len(),
{
    if bases.len() == 0 {
        Some((Seq::empty(), 0))
    } else {
        match allocate(bases.drop_last()) {
            None => None,
            Some((idxs, hint)) => {
                let b = bases.last();
                if !idxs.contains(b) {
                    Some((idxs.push(b), (b + STRIDE) % (HASH_SPACE as int)))
                } else {
                    match probe(idxs, hint) {
                        None => None,
                        Some(x) => Some((idxs.push(x), (x + STRIDE) % (HASH_SPACE as int))),
                    }
                }
            },
        }
    }
}

/// The base slots of a file's lines.
pub open spec fn bases_of(lines: Seq<Seq<char>>) -> Seq<int> {
    lines.map_values(|l: Seq<char>| base_of(l))
}

/// All slots in range and pairwise distinct.
pub open spec fn distinct_slots(idxs: Seq<int>) -> bool {
    &&& forall|i: int| 0 <= i < idxs.len() ==> 0 <= #[trigger] idxs[i] < HASH_SPACE
    &&& forall|i: int, j: int| 0 <= i < j < idxs.len() ==> idxs[i] != idxs[j]
}

/// Every residue is on the stride orbit from any start.
pub proof fn lemma_orbit(start: int, t: int)
    requires
        0 <= t < HASH_SPACE,
    ensures
        exists|j: int| 0 <= j < HASH_SPACE && #[trigger] probe_slot(start, j) == t,
{
    let d = t - start;
    let x = d * 238267;
    let j = x % 238328;
    let q = x / 238328;
    lemma_fundamental_div_mod(x, 238328);
    lemma_mod_bound(x, 238328);
    let m = d * 3906 - q * 3907;
    assert(start + j * 3907 == t + 238328 * m) by (nonlinear_arith)
        requires
            d == t - start,
            x == d * 238267,
            x == 238328 * q + j,
            m == d * 3906 - q * 3907,
    ;
    lemma_mod_multiples_vanish(m, t, 238328);
    lemma_small_mod(t as nat, 238328);
    assert(probe_slot(start, j) == t);
}

pub proof fn lemma_probe_from_none(used: Seq<int>, start: int, j: int)
    requires
        0 <= j,
        probe_from(used, start, j) is None,
    ensures
        forall|k: int| j <= k < HASH_SPACE ==> used.contains(#[trigger] probe_slot(start, k)),
    decreases HASH_SPACE - j,
{
    if j < HASH_SPACE {
        lemma_probe_from_none(used, start, j + 1);
    }
}

pub proof fn lemma_probe_from_some(used: Seq<int>, start: int, j: int)
    requires
        probe_from(used, start, j) is Some,
    ensures
        !used.contains(probe_from(used, start, j)->0),
        0 <= probe_from(used, start, j)->0 < HASH_SPACE,
    decreases HASH_SPACE - j,
{
    if 0 <= j < HASH_SPACE && used.contains(probe_slot(start, j)) {
        lemma_probe_from_some(used, start, j + 1);
    }
}

/// A probe succeeds whenever fewer than `HASH_SPACE` slots are used.
pub proof fn lemma_probe_finds(used: Seq<int>, start: int)
    requires
        used.len() < HASH_SPACE,
    ensures
        probe(used, start) is Some,
{
    if probe(used, start) is None {
        lemma_probe_from_none(used, start, 0);
        let range = vstd::set_lib::set_int_range(0, HASH_SPACE as int);
        assert forall|t: int| range.contains(t) implies used.to_set().contains(t) by {
            lemma_orbit(start, t);
            let j = choose|j: int| 0 <= j < HASH_SPACE && #[trigger] probe_slot(start, j) == t;
            assert(used.contains(probe_slot(start, j)));
        }
        vstd::set_lib::lemma_int_range(0, HASH_SPACE as int);
        used.lemma_cardinality_of_set();
        vstd::seq_lib::seq_to_set_is_finite(used);
        vstd::set_lib::lemma_len_subset(range, used.to_set());
    }
}

/// The allocation succeeds for at most `HASH_SPACE` lines, gives one slot
/// per line, all in range and pairwise distinct.
pub proof fn lemma_allocate(bases: Seq<int>)
    requires
        bases.len() <= HASH_SPACE,
        forall|i: int| 0 <= i < bases.len() ==> 0 <= #[trigger] bases[i] < HASH_SPACE,
    ensures
        allocate(bases) is Some,
        allocate(bases).unwrap().0.len() == bases.len(),
        distinct_slots(allocate(bases).unwrap().0),
        0 <= allocate(bases).unwrap().1 < HASH_SPACE,
    decreases bases.len(),
{
    if bases.len() > 0 {
        let prev = bases.drop_last();
        lemma_allocate(prev);
        let (idxs, hint) = allocate(prev)->0;
        let b = bases.last();
        if idxs.contains(b) {
            lemma_probe_finds(idxs, hint);
            lemma_probe_from_some(idxs, hint, 0);
        }
        let next = allocate(bases).unwrap().0;
        assert forall|i: int, j: int| 0 <= i < j < next.len() implies next[i] != next[j] by {
            if j == next.len() - 1 {
                assert(idxs.contains(idxs[i]));
            }
        }
    }
}

/// The first free slot on the stride orbit from `start`.
fn next_zero(used: &Vec<bool>, start: usize, Ghost(idxs): Ghost<Seq<int>>) -> (r: Option<usize>)
    requires
        used@.len() == HASH_SPACE,
        forall|x: int| 0 <= x < HASH_SPACE ==> used@[x] == idxs.contains(x),
    ensures
        r matches Some(x) ==> probe(idxs, start as int) == Some(x as int),
        r is None ==> probe(idxs, start as int) is None,
{
    let mut idx = start % HASH_SPACE;
    let mut j: usize = 0;
    proof {
        lemma_small_mod(0, HASH_SPACE as nat);
    }
    while j < HASH_SPACE
        invariant
            j <= HASH_SPACE,
            idx < HASH_SPACE,
            used@.len() == HASH_SPACE,
            forall|x: int| 0 <= x < HASH_SPACE ==> used@[x] == idxs.contains(x),
            j < HASH_SPACE ==> idx as int == probe_slot(start as int, j as int),
            probe(idxs, start as int) == probe_from(idxs, start as int, j as int),
        decreases HASH_SPACE - j,
    {
        if !used[idx] {
            return Some(idx);
        }
        proof {
            lemma_add_mod_noop(start as int + j * 3907, 3907, 238328);
            lemma_add_mod_noop(idx as int, 3907, 238328);
            lemma_small_mod(idx as nat, 238328);
            lemma_small_mod(3907, 238328);
            assert((start as int + j * 3907) % 238328 == idx);
            assert(start as int + j * 3907 + 3907 == start as int + (j + 1) * 3907);
        }
        idx = (idx + STRIDE) % HASH_SPACE;
        j = j + 1;
    }
    None
}

/// Allocate the slots of lines with these bases; `None` if the space fills.
fn allocate_exec(bases: &Vec<usize>, Ghost(sb): Ghost<Seq<int>>) -> (r: Option<(Vec<usize>, usize)>)
    requires
        bases@.len() == sb.len(),
        forall|i: int| 0 <= i < sb.len() ==> sb[i] == #[trigger] bases@[i] as int,
        forall|i: int| 0 <= i < sb.len() ==> 0 <= #[trigger] sb[i] < HASH_SPACE,
    ensures
        r matches Some((v, h)) ==> allocate(sb) matches Some((idxs, hint)) && hint == h as int
            && v@.len() == idxs.len() && forall|i: int|
            0 <= i < idxs.len() ==> #[trigger] v@[i] as int == idxs[i],
        r is None ==> allocate(sb) is None,
{
    let mut used: Vec<bool> = Vec::new();
    while used.len() < HASH_SPACE
        invariant
            used@.len() <= HASH_SPACE,
            forall|x: int| 0 <= x < used@.len() ==> !used@[x],
        decreases HASH_SPACE - used@.len(),
    {
        used.push(false);
    }
    let mut out: Vec<usize> = Vec::new();
    let mut hint: usize = 0;
    let mut k: usize = 0;
    let ghost mut idxs: Seq<int> = Seq::empty();
    assert(sb.take(0) =~= Seq::<int>::empty());
    while k < bases.len()
        invariant
            k <= bases@.len() == sb.len(),
            forall|i: int| 0 <= i < sb.len() ==> sb[i] == #[trigger] bases@[i] as int,
            forall|i: int| 0 <= i < sb.len() ==> 0 <= #[trigger] sb[i] < HASH_SPACE,
            allocate(sb.take(k as int)) == Some((idxs, hint as int)),
            hint < HASH_SPACE,
            used@.len() == HASH_SPACE,
            forall|x: int| 0 <= x < HASH_SPACE ==> used@[x] == idxs.contains(x),
            out@.len() == idxs.len(),
            forall|i: int| 0 <= i < idxs.len() ==> #[trigger] out@[i] as int == idxs[i],
        decreases bases@.len() - k,
    {
        assert(sb.take(k + 1).drop_last() =~= sb.take(k as int));
        let b = bases[k];
        let x;
        if !used[b] {
            x = b;
        } else {
            match next_zero(&used, hint, Ghost(idxs)) {
                None => {
                    assert(allocate(sb.take(k + 1)) is None);
                    proof {
                        lemma_allocate_none_grows(sb, k as int + 1);
                    }
                    assert(sb.take(sb.len() as int) =~= sb);
                    return None;
                },
                Some(z) => {
                    proof {
                        lemma_probe_from_some(idxs, hint as int, 0);
                    }
                    x = z;
                },
            }
        }
        used.set(x, true);
        out.push(x);
        proof {
            idxs = idxs.push(x as int);
        }
        hint = (x + STRIDE) % HASH_SPACE;
        k = k + 1;
    }
    assert(sb.take(sb.len() as int) =~= sb);
    Some((out, hint))
}

/// Once the allocation fails on a prefix, it fails on every extension.
pub proof fn lemma_allocate_none_grows(sb: Seq<int>, k: int)
    requires
        0 <= k <= sb.len(),
        allocate(sb.take(k)) is None,
    ensures
        allocate(sb) is None,
    decreases sb.len() - k,
{
    if k < sb.len() {
        assert(sb.take(k + 1).drop_last() =~= sb.take(k));
        lemma_allocate_none_grows(sb, k + 1);
    } else {
        assert(sb.take(k) =~= sb);
    }
}


/// The file exceeds the anchor space; fall back to a whole-file write.
#[derive(Debug)]
pub struct TooManyLines;

impl TooManyLines {
    /// The diagnostic shown to the model.
    pub fn message(&self) -> (r: String)
        ensures
            r@ == "file exceeds the 238328-line limit for hash anchors; use write or a non-line-based approach"@,
    {
        String::from_str("file exceeds the 238328-line limit for hash anchors; use write or a non-line-based approach")
    }
}

/// The slots of a file's lines, or `None` beyond the anchor space.
pub open spec fn line_slots(content: Seq<char>) -> Option<Seq<int>> {
    let lines = split_lines_of(content);
    if lines.len() > HASH_SPACE {
        None
    } else {
        Some(allocate(bases_of(lines)).unwrap().0)
    }
}

/// The anchors of a file's lines, or `None` beyond the anchor space.
pub open spec fn line_anchors(content: Seq<char>) -> Option<Seq<Seq<char>>> {
    match line_slots(content) {
        None => None,
        Some(idxs) => Some(idxs.map_values(|i: int| idx_to_hash(i))),
    }
}

proof fn lemma_bases_in_range(lines: Seq<Seq<char>>)
    ensures
        forall|i: int| 0 <= i < lines.len() ==> 0 <= #[trigger] bases_of(lines)[i] < HASH_SPACE,
{
}

/// The slots of `lines`, when they fit.
fn slots_of_lines(lines: &Vec<Vec<char>>) -> (r: Vec<usize>)
    requires
        lines@.len() <= HASH_SPACE,
    ensures
        ({
            let ls = lines@.map_values(|l: Vec<char>| l@);
            let idxs = allocate(bases_of(ls)).unwrap().0;
            &&& allocate(bases_of(ls)) is Some
            &&& r@.len() == idxs.len() == lines@.len()
            &&& forall|i: int| 0 <= i < idxs.len() ==> #[trigger] r@[i] as int == idxs[i]
            &&& distinct_slots(idxs)
        }),
{
    let ghost ls = lines@.map_values(|l: Vec<char>| l@);
    let mut bases: Vec<usize> = Vec::new();
    let mut i: usize = 0;
    while i < lines.len()
        invariant
            i <= lines@.len(),
            ls == lines@.map_values(|l: Vec<char>| l@),
            bases@.len() == i,
            forall|k: int| 0 <= k < i ==> #[trigger] bases@[k] as int == bases_of(ls)[k],
        decreases lines@.len() - i,
    {
        let b = base_exec(&lines[i]);
        bases.push(b);
        i = i + 1;
    }
    proof {
        lemma_bases_in_range(ls);
        lemma_allocate(bases_of(ls));
    }
    match allocate_exec(&bases, Ghost(bases_of(ls))) {
        Some((v, _)) => v,
        None => {
            assert(false);
            Vec::new()
        },
    }
}

fn hashes_of_slots(idxs: &Vec<usize>) -> (r: Vec<String>)
    requires
        forall|i: int| 0 <= i < idxs@.len() ==> #[trigger] idxs@[i] < HASH_SPACE,
    ensures
        r@.len() == idxs@.len(),
        forall|i: int| 0 <= i < idxs@.len() ==> #[trigger] r@[i]@ == idx_to_hash(idxs@[i] as int),
{
    let mut r: Vec<String> = Vec::new();
    let mut i: usize = 0;
    while i < idxs.len()
        invariant
            i <= idxs@.len(),
            forall|k: int| 0 <= k < idxs@.len() ==> #[trigger] idxs@[k] < HASH_SPACE,
            r@.len() == i,
            forall|k: int| 0 <= k < i ==> #[trigger] r@[k]@ == idx_to_hash(idxs@[k] as int),
        decreases idxs@.len() - i,
    {
        let h = idx_to_hash_exec(idxs[i]);
        r.push(string_of(&h));
        i = i + 1;
    }
    r
}

proof fn lemma_allocated_in_range(sb: Seq<int>)
    requires
        forall|i: int| 0 <= i < sb.len() ==> 0 <= #[trigger] sb[i] < HASH_SPACE,
    ensures
        allocate(sb) matches Some((idxs, _)) ==> forall|k: int| 0 <= k < idxs.len() ==> 0 <= #[trigger] idxs[k] < HASH_SPACE,
    decreases sb.len(),
{
    if sb.len() > 0 {
        let prev = sb.drop_last();
        lemma_allocated_in_range(prev);
        match allocate(prev) {
            Some((idxs, hint)) => {
                if idxs.contains(sb.last()) && probe(idxs, hint) is Some {
                    lemma_probe_from_some(idxs, hint, 0);
                }
            },
            None => {},
        }
    }
}

/// The anchors that lines with these base slots get, in order: a free
/// base is kept, a taken one probes from the running hint; `None` when
/// the anchor space fills. (A file's bases are the hashes of its lines'
/// canons, `base_of`; this takes them as given.)
pub fn anchors_from_bases(bases: &[usize]) -> (r: Option<Vec<String>>)
    requires
        forall|i: int| 0 <= i < bases@.len() ==> #[trigger] bases@[i] < HASH_SPACE,
    ensures
        ({
            let sb = bases@.map_values(|b: usize| b as int);
            match allocate(sb) {
                Some((idxs, _)) => r matches Some(v) && v@.len() == idxs.len() && forall|i: int|
                    0 <= i < idxs.len() ==> #[trigger] v@[i]@ == idx_to_hash(idxs[i]),
                None => r is None,
            }
        }),
{
    let ghost sb = bases@.map_values(|b: usize| b as int);
    let mut v: Vec<usize> = Vec::new();
    let mut i: usize = 0;
    while i < bases.len()
        invariant
            i <= bases@.len(),
            v@.len() == i,
            forall|k: int| 0 <= k < i ==> #[trigger] v@[k] == bases@[k],
        decreases bases@.len() - i,
    {
        v.push(bases[i]);
        i = i + 1;
    }
    match allocate_exec(&v, Ghost(sb)) {
        None => None,
        Some((idxs, _)) => {
            proof {
                let a = allocate(sb).unwrap().0;
                lemma_allocated_in_range(sb);
                assert forall|k: int| 0 <= k < idxs@.len() implies #[trigger] idxs@[k] < HASH_SPACE by {
                    assert(idxs@[k] as int == a[k]);
                }
            }
            Some(hashes_of_slots(&idxs))
        },
    }
}

/// One unique anchor per line: a free base slot is kept, a taken one probes
/// from the running hint. `Err` beyond the anchor space.
pub fn line_hashes(content: &str) -> (r: Result<Vec<String>, TooManyLines>)
    ensures
        r is Err <==> line_anchors(content@) is None,
        r matches Ok(v) ==> ({
            let a = line_anchors(content@).unwrap();
            &&& v@.len() == a.len()
            &&& forall|i: int| 0 <= i < a.len() ==> #[trigger] v@[i]@ == a[i]
        }),
{
    let v = chars_of(content);
    let lines = split_lines_chars(&v);
    proof {
        assert(lines@.map_values(|l: Vec<char>| l@) =~= split_lines_of(content@));
    }
    if lines.len() > HASH_SPACE {
        return Err(TooManyLines);
    }
    let idxs = slots_of_lines(&lines);
    let hs = hashes_of_slots(&idxs);
    Ok(hs)
}

/// The rows `anchor│line` of `content`.
pub fn render(content: &str) -> (r: Result<Vec<String>, TooManyLines>)
    ensures
        r is Err <==> line_anchors(content@) is None,
        r matches Ok(v) ==> ({
            let a = line_anchors(content@).unwrap();
            let lines = split_lines_of(content@);
            &&& v@.len() == a.len()
            &&& forall|i: int| 0 <= i < a.len() ==> #[trigger] v@[i]@ == a[i].push(SEP) + lines[i]
        }),
{
    let v = chars_of(content);
    let lines = split_lines_chars(&v);
    let ghost ls = split_lines_of(content@);
    proof {
        assert(lines@.map_values(|l: Vec<char>| l@) =~= ls);
    }
    if lines.len() > HASH_SPACE {
        return Err(TooManyLines);
    }
    let idxs = slots_of_lines(&lines);
    let mut rows: Vec<String> = Vec::new();
    let mut i: usize = 0;
    while i < idxs.len()
        invariant
            i <= idxs@.len() == lines@.len(),
            ls == lines@.map_values(|l: Vec<char>| l@),
            line_anchors(content@) == Some(allocate(bases_of(ls)).unwrap().0.map_values(|k: int| idx_to_hash(k))),
            forall|k: int| 0 <= k < idxs@.len() ==> #[trigger] idxs@[k] as int == allocate(bases_of(ls)).unwrap().0[k],
            allocate(bases_of(ls)).unwrap().0.len() == idxs@.len(),
            distinct_slots(allocate(bases_of(ls)).unwrap().0),
            rows@.len() == i,
            forall|k: int| 0 <= k < i ==> #[trigger] rows@[k]@ == line_anchors(content@).unwrap()[k].push(SEP) + ls[k],
        decreases idxs@.len() - i,
    {
        let h = idx_to_hash_exec(idxs[i]);
        let mut row = string_of(&h);
        crate::text::push_char(&mut row, SEP);
        push_chars(&mut row, &lines[i]);
        rows.push(row);
        i = i + 1;
    }
    Ok(rows)
}

/// Anchors are unique per file, well formed, and one per line.
pub proof fn lemma_anchors_unique(content: Seq<char>)
    requires
        split_lines_of(content).len() <= HASH_SPACE,
    ensures
        line_anchors(content) is Some,
        line_anchors(content).unwrap().len() == split_lines_of(content).len(),
        forall|i: int, j: int|
            0 <= i < j < line_anchors(content).unwrap().len() ==> line_anchors(content).unwrap()[i]
                != line_anchors(content).unwrap()[j],
        forall|i: int|
            0 <= i < line_anchors(content).unwrap().len() ==> hash_to_idx(
                #[trigger] line_anchors(content).unwrap()[i],
            ) is Some,
{
    let lines = split_lines_of(content);
    lemma_bases_in_range(lines);
    lemma_allocate(bases_of(lines));
    let idxs = allocate(bases_of(lines)).unwrap().0;
    let a = line_anchors(content).unwrap();
    assert forall|i: int, j: int| 0 <= i < j < a.len() implies a[i] != a[j] by {
        lemma_idx_to_hash_injective(idxs[i], idxs[j]);
    }
    assert forall|i: int| 0 <= i < a.len() implies hash_to_idx(#[trigger] a[i]) is Some by {
        lemma_idx_hash_round_trip(idxs[i]);
    }
}

/// Anchors follow the canon, not the whitespace: files whose lines have the
/// same canons line by line get the same anchors.
pub proof fn lemma_anchors_follow_canon(a: Seq<char>, b: Seq<char>)
    requires
        split_lines_of(a).len() == split_lines_of(b).len(),
        forall|i: int|
            0 <= i < split_lines_of(a).len() ==> canon_of(#[trigger] split_lines_of(a)[i])
                == canon_of(split_lines_of(b)[i]),
    ensures
        line_anchors(a) == line_anchors(b),
{
    assert(bases_of(split_lines_of(a)) =~= bases_of(split_lines_of(b)));
}


/// One edit: the inclusive anchor range `[from, to]` replaced by `content`.
pub struct Edit {
    pub from: String,
    pub to: String,
    pub content: String,
}

/// The edited file: new content, its anchors (unchanged lines keep theirs),
/// and the 1-based line range of the changed region in the new file.
#[derive(Debug)]
pub struct Edited {
    pub content: String,
    pub hashes: Vec<String>,
    pub first_changed: usize,
    pub last_changed: usize,
}

/// Why an edit was refused.
#[derive(Debug, PartialEq, Eq)]
pub enum EditError {
    /// The anchor is not in the file's current anchor set.
    Stale { anchor: String },
    /// The file exceeds the anchor space; fall back to a whole-file write.
    TooLarge,
    /// `from` resolves after `to`.
    Reversed { from: String, to: String },
    /// Not a bare 3-character anchor from the alphabet.
    BadAnchor(String),
    /// A non-empty file cannot be emptied through an edit.
    EmptyFile,
}

pub open spec fn dist(a: int, b: int) -> int {
    if a >= b {
        a - b
    } else {
        b - a
    }
}

/// Among the first `n` new lines, the free one with canon `c` nearest to
/// `t` (ties to the earlier line).
pub open spec fn nearest_upto(
    asg: Seq<Option<int>>,
    ncanon: Seq<Seq<char>>,
    c: Seq<char>,
    t: int,
    n: int,
) -> Option<int>
    decreases n,
{
    if n <= 0 {
        None
    } else {
        let b = nearest_upto(asg, ncanon, c, t, n - 1);
        let j = n - 1;
        if asg[j] is None && ncanon[j] == c && (b is None || dist(j, t) < dist(b->0, t)) {
            Some(j)
        } else {
            b
        }
    }
}

/// The survivor pass over the first `i` old lines: each line outside the
/// replaced span `[s, e]` claims the nearest free new line with its canon
/// (its target shifted by the line-count change when it sits after the
/// span), carrying its slot over. Also tracks the allocation hint.
pub open spec fn survive(
    ocanon: Seq<Seq<char>>,
    oi: Seq<int>,
    ncanon: Seq<Seq<char>>,
    s: int,
    e: int,
    i: int,
) -> (Seq<Option<int>>, int)
    decreases i,
{
    if i <= 0 {
        (Seq::new(ncanon.len(), |j: int| None), 0)
    } else {
        let (asg, hint) = survive(ocanon, oi, ncanon, s, e, i - 1);
        let k = i - 1;
        if s <= k <= e {
            (asg, hint)
        } else {
            let h = if hint >= (oi[k] + STRIDE) % (HASH_SPACE as int) {
                hint
            } else {
                (oi[k] + STRIDE) % (HASH_SPACE as int)
            };
            let shifted = k + ncanon.len() - ocanon.len();
            let target = if k > e {
                if shifted < 0 {
                    0
                } else if shifted > ncanon.len() {
                    ncanon.len() as int
                } else {
                    shifted
                }
            } else {
                k
            };
            match nearest_upto(asg, ncanon, ocanon[k], target, ncanon.len() as int) {
                None => (asg, h),
                Some(j) => (asg.update(j, Some(oi[k])), h),
            }
        }
    }
}

/// The fill pass over the first `j` new lines: a survivor keeps its slot,
/// a fresh line takes its free base or probes; `used` starts as every old
/// slot. `None` when a probe finds the space full.
pub open spec fn fill(
    asg: Seq<Option<int>>,
    nbases: Seq<int>,
    oi: Seq<int>,
    hint0: int,
    j: int,
) -> Option<(Seq<int>, Seq<int>, int)>
    decreases j,
{
    if j <= 0 {
        Some((Seq::empty(), oi, hint0))
    } else {
        match fill(asg, nbases, oi, hint0, j - 1) {
            None => None,
            Some((res, used, hint)) => match asg[j - 1] {
                Some(x) => Some((res.push(x), used, hint)),
                None => {
                    let b = nbases[j - 1];
                    if !used.contains(b) {
                        Some((res.push(b), used.push(b), (b + STRIDE) % (HASH_SPACE as int)))
                    } else {
                        match probe(used, hint) {
                            None => None,
                            Some(x) => Some(
                                (res.push(x), used.push(x), (x + STRIDE) % (HASH_SPACE as int)),
                            ),
                        }
                    }
                },
            },
        }
    }
}

/// The slots after replacing old lines `[s, e]`: survivors first, then
/// fresh allocation. `None` when the anchor space fills.
pub open spec fn stable_slots(
    old_lines: Seq<Seq<char>>,
    oi: Seq<int>,
    new_lines: Seq<Seq<char>>,
    s: int,
    e: int,
) -> Option<Seq<int>> {
    let ocanon = old_lines.map_values(|l: Seq<char>| canon_of(l));
    let ncanon = new_lines.map_values(|l: Seq<char>| canon_of(l));
    let (asg, hint) = survive(ocanon, oi, ncanon, s, e, old_lines.len() as int);
    match fill(asg, bases_of(new_lines), oi, hint, new_lines.len() as int) {
        None => None,
        Some((res, _, _)) => Some(res),
    }
}

/// The lines of an edit's replacement text.
pub open spec fn replacement_of(content: Seq<char>) -> Seq<Seq<char>> {
    if content.len() == 0 {
        Seq::empty()
    } else {
        split_lines_of(content)
    }
}

/// The position of anchor `a` among `anchors`, if present.
pub open spec fn anchor_pos(anchors: Seq<Seq<char>>, a: Seq<char>) -> Option<int> {
    if exists|k: int| 0 <= k < anchors.len() && anchors[k] == a {
        Some(choose|k: int| 0 <= k < anchors.len() && anchors[k] == a)
    } else {
        None
    }
}

/// Equal lines from the front, bounded by `n`, counted from `k`.
pub open spec fn prefix_from(a: Seq<Seq<char>>, b: Seq<Seq<char>>, n: int, k: int) -> int
    decreases n - k,
{
    if 0 <= k < n && a[k] == b[k] {
        prefix_from(a, b, n, k + 1)
    } else {
        k
    }
}

/// Equal lines from the back, bounded by `n`, counted from `k`.
pub open spec fn suffix_from(a: Seq<Seq<char>>, b: Seq<Seq<char>>, n: int, k: int) -> int
    decreases n - k,
{
    if 0 <= k < n && a[a.len() - 1 - k] == b[b.len() - 1 - k] {
        suffix_from(a, b, n, k + 1)
    } else {
        k
    }
}

/// The new lines of the file after replacing lines `[s, e]`.
pub open spec fn spliced(lines: Seq<Seq<char>>, s: int, e: int, rep: Seq<Seq<char>>) -> Seq<
    Seq<char>,
> {
    lines.take(s) + rep + lines.skip(e + 1)
}

/// The new file content: the lines joined with newlines, the final newline
/// kept when the old file had one and lines remain.
pub open spec fn spliced_content(content: Seq<char>, new_lines: Seq<Seq<char>>) -> Seq<char> {
    let j = join(new_lines, seq!['\n']);
    if content.len() > 0 && content.last() == '\n' && new_lines.len() > 0 {
        j.push('\n')
    } else {
        j
    }
}

/// What applying `(from, to, rep)` to `content` yields: `Ok((content,
/// slots, first_changed, last_changed))` or the refusal.
pub enum EditOutcome {
    Done(Seq<char>, Seq<int>, int, int),
    Stale(Seq<char>),
    BadAnchor(Seq<char>),
    TooLarge,
    Reversed,
    EmptyFile,
}

pub open spec fn edit_outcome(
    content: Seq<char>,
    from: Seq<char>,
    to: Seq<char>,
    rep_text: Seq<char>,
) -> EditOutcome {
    let lines = split_lines_of(content);
    if hash_to_idx(from) is None {
        EditOutcome::BadAnchor(from)
    } else if hash_to_idx(to) is None {
        EditOutcome::BadAnchor(to)
    } else if content.len() == 0 {
        EditOutcome::Stale(from)
    } else if lines.len() > HASH_SPACE {
        EditOutcome::TooLarge
    } else {
        let anchors = line_anchors(content).unwrap();
        let oi = line_slots(content).unwrap();
        match (anchor_pos(anchors, from), anchor_pos(anchors, to)) {
            (None, _) => EditOutcome::Stale(from),
            (Some(_), None) => EditOutcome::Stale(to),
            (Some(s), Some(e)) => {
                let rep = replacement_of(rep_text);
                if s > e {
                    EditOutcome::Reversed
                } else if s == 0 && e == lines.len() - 1 && rep.len() == 0 {
                    EditOutcome::EmptyFile
                } else {
                    let nl = spliced(lines, s, e, rep);
                    match stable_slots(lines, oi, nl, s, e) {
                        None => EditOutcome::TooLarge,
                        Some(slots) => {
                            let min_len = if nl.len() <= lines.len() {
                                nl.len() as int
                            } else {
                                lines.len() as int
                            };
                            let lo = prefix_from(nl, lines, min_len, 0);
                            let hi = suffix_from(nl, lines, min_len - lo, 0);
                            EditOutcome::Done(
                                spliced_content(content, nl),
                                slots,
                                lo + 1,
                                if nl.len() >= hi {
                                    nl.len() - hi
                                } else {
                                    0
                                },
                            )
                        },
                    }
                }
            },
        }
    }
}


pub open spec fn opt_int(o: Option<usize>) -> Option<int> {
    match o {
        None => None,
        Some(x) => Some(x as int),
    }
}

pub open spec fn ints(v: Seq<usize>) -> Seq<int> {
    v.map_values(|x: usize| x as int)
}

pub open spec fn views(v: Seq<Vec<char>>) -> Seq<Seq<char>> {
    v.map_values(|l: Vec<char>| l@)
}

/// Where anchor `a` sits among the anchors of slots `idxs`.
fn resolve(idxs: &Vec<usize>, a: &[char]) -> (r: Option<usize>)
    requires
        distinct_slots(ints(idxs@)),
    ensures
        opt_int(r) == anchor_pos(ints(idxs@).map_values(|i: int| idx_to_hash(i)), a@),
        r matches Some(k) ==> k < idxs@.len(),
{
    let ghost anchors = ints(idxs@).map_values(|i: int| idx_to_hash(i));
    match hash_to_idx_exec(a) {
        None => {
            assert forall|k: int| 0 <= k < anchors.len() implies anchors[k] != a@ by {
                assert(ints(idxs@)[k] == idxs@[k] as int);
                lemma_idx_hash_round_trip(idxs@[k] as int);
            }
            None
        },
        Some(x) => {
            proof {
                lemma_hash_idx_round_trip(a@);
            }
            let mut k: usize = 0;
            while k < idxs.len()
                invariant
                    k <= idxs@.len(),
                    forall|j: int| 0 <= j < k ==> idxs@[j] != x,
                    distinct_slots(ints(idxs@)),
                    anchors == ints(idxs@).map_values(|i: int| idx_to_hash(i)),
                    hash_to_idx(a@) == Some(x as int),
                    idx_to_hash(x as int) == a@,
                decreases idxs@.len() - k,
            {
                if idxs[k] == x {
                    proof {
                        assert(ints(idxs@)[k as int] == x as int);
                        assert(anchors[k as int] == a@);
                        assert forall|j: int| 0 <= j < anchors.len() && anchors[j] == a@ implies j
                            == k by {
                            if j != k {
                                assert(ints(idxs@)[j] == idxs@[j] as int);
                                lemma_idx_to_hash_injective(idxs@[j] as int, idxs@[k as int] as int);
                            }
                        }
                    }
                    return Some(k);
                }
                k = k + 1;
            }
            assert forall|j: int| 0 <= j < anchors.len() implies anchors[j] != a@ by {
                if anchors[j] == a@ {
                    assert(ints(idxs@)[j] == idxs@[j] as int);
                    lemma_idx_hash_round_trip(idxs@[j] as int);
                }
            }
            None
        },
    }
}

fn canons_of(lines: &Vec<Vec<char>>) -> (r: Vec<Vec<char>>)
    ensures
        r@.len() == lines@.len(),
        views(r@) == views(lines@).map_values(|l: Seq<char>| canon_of(l)),
{
    let mut r: Vec<Vec<char>> = Vec::new();
    let mut i: usize = 0;
    while i < lines.len()
        invariant
            i <= lines@.len(),
            r@.len() == i,
            forall|k: int| 0 <= k < i ==> #[trigger] r@[k]@ == canon_of(lines@[k]@),
        decreases lines@.len() - i,
    {
        r.push(canon_chars(&lines[i]));
        i = i + 1;
    }
    assert(views(r@) =~= views(lines@).map_values(|l: Seq<char>| canon_of(l)));
    r
}

fn dist_exec(a: usize, b: usize) -> (r: usize)
    ensures
        r as int == dist(a as int, b as int),
{
    if a >= b {
        a - b
    } else {
        b - a
    }
}

/// The free new line with canon `c` nearest to `t`.
fn nearest(asg: &Vec<Option<usize>>, ncanon: &Vec<Vec<char>>, c: &[char], t: usize) -> (r: Option<
    usize,
>)
    requires
        asg@.len() == ncanon@.len(),
    ensures
        opt_int(r) == nearest_upto(
            asg@.map_values(|o: Option<usize>| opt_int(o)),
            views(ncanon@),
            c@,
            t as int,
            ncanon@.len() as int,
        ),
        r matches Some(j) ==> j < ncanon@.len(),
{
    let ghost sasg = asg@.map_values(|o: Option<usize>| opt_int(o));
    let ghost snc = views(ncanon@);
    let mut best: Option<usize> = None;
    let mut j: usize = 0;
    while j < ncanon.len()
        invariant
            j <= ncanon@.len() == asg@.len(),
            sasg == asg@.map_values(|o: Option<usize>| opt_int(o)),
            snc == views(ncanon@),
            opt_int(best) == nearest_upto(sasg, snc, c@, t as int, j as int),
            best matches Some(b) ==> b < j,
        decreases ncanon@.len() - j,
    {
        if asg[j].is_none() && chars_eq(&ncanon[j], c) {
            match best {
                None => {
                    best = Some(j);
                },
                Some(b) => {
                    if dist_exec(j, t) < dist_exec(b, t) {
                        best = Some(j);
                    }
                },
            }
        }
        j = j + 1;
    }
    best
}

/// The survivor pass: which new lines keep which old slots, and the hint.
fn survivors(ocanon: &Vec<Vec<char>>, oi: &Vec<usize>, ncanon: &Vec<Vec<char>>, s: usize, e: usize) -> (r: (
    Vec<Option<usize>>,
    usize,
))
    requires
        oi@.len() == ocanon@.len(),
        distinct_slots(ints(oi@)),
    ensures
        survive(views(ocanon@), ints(oi@), views(ncanon@), s as int, e as int, ocanon@.len() as int)
            == (r.0@.map_values(|x: Option<usize>| opt_int(x)), r.1 as int),
        r.1 < HASH_SPACE,
        r.0@.len() == ncanon@.len(),
        forall|j: int| 0 <= j < r.0@.len() ==> (#[trigger] r.0@[j] matches Some(x) ==> x < HASH_SPACE),
{
    let ghost socan = views(ocanon@);
    let ghost sncan = views(ncanon@);
    let ghost soi = ints(oi@);
    let n = ncanon.len();
    let o = ocanon.len();
    let mut asg: Vec<Option<usize>> = Vec::new();
    while asg.len() < n
        invariant
            asg@.len() <= n,
            forall|j: int| 0 <= j < asg@.len() ==> asg@[j] is None,
        decreases n - asg@.len(),
    {
        asg.push(None);
    }
    assert(asg@.map_values(|x: Option<usize>| opt_int(x)) =~= Seq::new(
        sncan.len(),
        |j: int| None,
    ));
    let mut hint: usize = 0;
    let mut k: usize = 0;
    while k < o
        invariant
            k <= o == oi@.len() == ocanon@.len(),
            n == ncanon@.len() == asg@.len(),
            socan == views(ocanon@),
            sncan == views(ncanon@),
            soi == ints(oi@),
            distinct_slots(soi),
            survive(socan, soi, sncan, s as int, e as int, k as int) == (
                asg@.map_values(|x: Option<usize>| opt_int(x)),
                hint as int,
            ),
            hint < HASH_SPACE,
            forall|j: int| 0 <= j < asg@.len() ==> (#[trigger] asg@[j] matches Some(x) ==> x
                < HASH_SPACE),
        decreases o - k,
    {
        if !(s <= k && k <= e) {
            assert(soi[k as int] == oi@[k as int] as int);
            let cand = (oi[k] + STRIDE) % HASH_SPACE;
            if cand > hint {
                hint = cand;
            }
            let target: usize = if k > e {
                if n >= o {
                    let d = n - o;
                    if k > n - d {
                        n
                    } else {
                        k + d
                    }
                } else {
                    let d = o - n;
                    if k < d {
                        0
                    } else {
                        let x = k - d;
                        if x > n {
                            n
                        } else {
                            x
                        }
                    }
                }
            } else {
                k
            };
            let picked = nearest(&asg, ncanon, &ocanon[k as usize], target);
            match picked {
                None => {},
                Some(j) => {
                    let ghost before = asg@;
                    asg.set(j, Some(oi[k]));
                    assert(asg@.map_values(|x: Option<usize>| opt_int(x)) =~= before.map_values(
                        |x: Option<usize>| opt_int(x),
                    ).update(j as int, Some(soi[k as int])));
                },
            }
        }
        k = k + 1;
    }
    (asg, hint)
}

/// The fill pass: survivors keep their slots, fresh lines are allocated.
fn fill_exec(asg: &Vec<Option<usize>>, new_lines: &Vec<Vec<char>>, oi: &Vec<usize>, hint0: usize) -> (r: Option<
    Vec<usize>,
>)
    requires
        asg@.len() == new_lines@.len(),
        distinct_slots(ints(oi@)),
        hint0 < HASH_SPACE,
        forall|j: int| 0 <= j < asg@.len() ==> (#[trigger] asg@[j] matches Some(x) ==> x < HASH_SPACE),
    ensures
        ({
            let f = fill(
                asg@.map_values(|x: Option<usize>| opt_int(x)),
                bases_of(views(new_lines@)),
                ints(oi@),
                hint0 as int,
                new_lines@.len() as int,
            );
            &&& r is None <==> f is None
            &&& r matches Some(v) ==> f.unwrap().0 == ints(v@)
        }),
        r matches Some(v) ==> forall|i: int| 0 <= i < v@.len() ==> #[trigger] v@[i] < HASH_SPACE,
{
    let ghost soi = ints(oi@);
    let ghost sasg = asg@.map_values(|x: Option<usize>| opt_int(x));
    let ghost snl = views(new_lines@);
    let ghost nb = bases_of(snl);
    let n = new_lines.len();
    let mut used: Vec<bool> = Vec::new();
    while used.len() < HASH_SPACE
        invariant
            used@.len() <= HASH_SPACE,
            forall|x: int| 0 <= x < used@.len() ==> !used@[x],
        decreases HASH_SPACE - used@.len(),
    {
        used.push(false);
    }
    let mut m: usize = 0;
    let ghost mut sused: Seq<int> = Seq::empty();
    while m < oi.len()
        invariant
            m <= oi@.len(),
            soi == ints(oi@),
            distinct_slots(soi),
            used@.len() == HASH_SPACE,
            sused == soi.take(m as int),
            forall|x: int| 0 <= x < HASH_SPACE ==> used@[x] == sused.contains(x),
        decreases oi@.len() - m,
    {
        assert(soi.take(m + 1) =~= soi.take(m as int).push(soi[m as int]));
        assert(soi[m as int] == oi@[m as int] as int);
        used.set(oi[m], true);
        proof {
            sused = sused.push(soi[m as int]);
        }
        m = m + 1;
    }
    assert(soi.take(soi.len() as int) =~= soi);
    let mut res: Vec<usize> = Vec::new();
    let mut hint = hint0;
    let mut j: usize = 0;
    while j < n
        invariant
            j <= n == new_lines@.len() == asg@.len(),
            snl == views(new_lines@),
            nb == bases_of(snl),
            soi == ints(oi@),
            sasg == asg@.map_values(|x: Option<usize>| opt_int(x)),
            forall|q: int| 0 <= q < asg@.len() ==> (#[trigger] asg@[q] matches Some(x) ==> x
                < HASH_SPACE),
            fill(sasg, nb, soi, hint0 as int, j as int) == Some((ints(res@), sused, hint as int)),
            hint < HASH_SPACE,
            used@.len() == HASH_SPACE,
            forall|x: int| 0 <= x < HASH_SPACE ==> used@[x] == sused.contains(x),
            forall|i: int| 0 <= i < res@.len() ==> #[trigger] res@[i] < HASH_SPACE,
        decreases n - j,
    {
        let ghost r0 = res@;
        match asg[j] {
            Some(x) => {
                res.push(x);
                assert(ints(res@) =~= ints(r0).push(x as int));
            },
            None => {
                let b = base_exec(&new_lines[j]);
                let x;
                if !used[b] {
                    x = b;
                } else {
                    match next_zero(&used, hint, Ghost(sused)) {
                        None => {
                            proof {
                                assert(sasg[j as int] is None);
                                assert(nb[j as int] == b as int);
                                assert(sused.contains(b as int));
                                assert(fill(sasg, nb, soi, hint0 as int, j as int + 1) is None);
                                lemma_fill_none_grows(sasg, nb, soi, hint0 as int, j as int + 1, n as int);
                            }
                            return None;
                        },
                        Some(z) => {
                            proof {
                                lemma_probe_from_some(sused, hint as int, 0);
                            }
                            x = z;
                        },
                    }
                }
                used.set(x, true);
                res.push(x);
                proof {
                    sused = sused.push(x as int);
                }
                assert(ints(res@) =~= ints(r0).push(x as int));
                hint = (x + STRIDE) % HASH_SPACE;
            },
        }
        j = j + 1;
    }
    Some(res)
}

/// The slots after replacing old lines `[s, e]` with the new lines.
fn stable_slots_exec(
    old_lines: &Vec<Vec<char>>,
    oi: &Vec<usize>,
    new_lines: &Vec<Vec<char>>,
    s: usize,
    e: usize,
) -> (r: Option<Vec<usize>>)
    requires
        oi@.len() == old_lines@.len(),
        distinct_slots(ints(oi@)),
    ensures
        r matches Some(v) ==> stable_slots(views(old_lines@), ints(oi@), views(new_lines@), s as int, e as int) == Some(ints(v@)),
        r is None ==> stable_slots(views(old_lines@), ints(oi@), views(new_lines@), s as int, e as int) is None,
        r matches Some(v) ==> forall|i: int| 0 <= i < v@.len() ==> #[trigger] v@[i] < HASH_SPACE,
{
    let ocanon = canons_of(old_lines);
    let ncanon = canons_of(new_lines);
    let (asg, hint) = survivors(&ocanon, oi, &ncanon, s, e);
    fill_exec(&asg, new_lines, oi, hint)
}

/// Once the fill fails, it fails for every longer prefix.
pub proof fn lemma_fill_none_grows(
    asg: Seq<Option<int>>,
    nbases: Seq<int>,
    oi: Seq<int>,
    hint0: int,
    j: int,
    n: int,
)
    requires
        0 <= j <= n,
        fill(asg, nbases, oi, hint0, j) is None,
    ensures
        fill(asg, nbases, oi, hint0, n) is None,
    decreases n - j,
{
    if j < n {
        lemma_fill_none_grows(asg, nbases, oi, hint0, j + 1, n);
    }
}


/// `r` is what `edit_outcome` says applying the edit gives.
pub open spec fn edit_result_matches(r: Result<Edited, EditError>, o: EditOutcome, edit: Edit) -> bool {
    match (r, o) {
        (Ok(ed), EditOutcome::Done(c, slots, f, l)) => {
            &&& ed.content@ == c
            &&& ed.hashes@.len() == slots.len()
            &&& forall|i: int| 0 <= i < slots.len() ==> #[trigger] ed.hashes@[i]@ == idx_to_hash(slots[i])
            &&& ed.first_changed == f
            &&& ed.last_changed == l
        },
        (Err(EditError::Stale { anchor }), EditOutcome::Stale(a)) => anchor@ == a,
        (Err(EditError::BadAnchor(anchor)), EditOutcome::BadAnchor(a)) => anchor@ == a,
        (Err(EditError::TooLarge), EditOutcome::TooLarge) => true,
        (Err(EditError::Reversed { from, to }), EditOutcome::Reversed) => from@ == edit.from@ && to@ == edit.to@,
        (Err(EditError::EmptyFile), EditOutcome::EmptyFile) => true,
        _ => false,
    }
}

fn copy_lines(lines: &Vec<Vec<char>>, lo: usize, hi: usize, out: &mut Vec<Vec<char>>)
    requires
        lo <= hi <= lines@.len(),
    ensures
        views(final(out)@) == views(old(out)@) + views(lines@).subrange(lo as int, hi as int),
{
    let mut i = lo;
    let ghost o0 = views(out@);
    while i < hi
        invariant
            lo <= i <= hi <= lines@.len(),
            views(out@) == o0 + views(lines@).subrange(lo as int, i as int),
        decreases hi - i,
    {
        let ghost before = views(out@);
        let l = slice_vec(&lines[i], 0, lines[i].len());
        assert(lines@[i as int]@.subrange(0, lines@[i as int]@.len() as int) =~= lines@[i as int]@);
        out.push(l);
        assert(views(out@) =~= before.push(lines@[i as int]@));
        assert(views(lines@).subrange(lo as int, i + 1) =~= views(lines@).subrange(lo as int, i as int).push(lines@[i as int]@));
        i = i + 1;
    }
}

fn prefix_len(a: &Vec<Vec<char>>, b: &Vec<Vec<char>>, n: usize) -> (r: usize)
    requires
        n <= a@.len(),
        n <= b@.len(),
    ensures
        r as int == prefix_from(views(a@), views(b@), n as int, 0),
        r <= n,
{
    let mut k: usize = 0;
    while k < n && chars_eq(&a[k], &b[k])
        invariant
            k <= n <= a@.len(),
            n <= b@.len(),
            prefix_from(views(a@), views(b@), n as int, 0) == prefix_from(views(a@), views(b@), n as int, k as int),
        decreases n - k,
    {
        k = k + 1;
    }
    k
}

fn suffix_len(a: &Vec<Vec<char>>, b: &Vec<Vec<char>>, n: usize) -> (r: usize)
    requires
        n <= a@.len(),
        n <= b@.len(),
    ensures
        r as int == suffix_from(views(a@), views(b@), n as int, 0),
        r <= n,
{
    let mut k: usize = 0;
    while k < n && chars_eq(&a[a.len() - 1 - k], &b[b.len() - 1 - k])
        invariant
            k <= n <= a@.len(),
            n <= b@.len(),
            suffix_from(views(a@), views(b@), n as int, 0) == suffix_from(views(a@), views(b@), n as int, k as int),
        decreases n - k,
    {
        k = k + 1;
    }
    k
}

/// Apply one edit: resolve both anchors strictly (a stale or malformed
/// anchor is refused, never fuzzy-matched), splice the range, and re-anchor
/// the result keeping survivors' anchors.
pub fn apply_edit(content: &str, edit: &Edit) -> (r: Result<Edited, EditError>)
    ensures
        edit_result_matches(r, edit_outcome(content@, edit.from@, edit.to@, edit.content@), *edit),
{
    if hash_to_idx_exec(&chars_of(edit.from.as_str())).is_none() {
        return Err(EditError::BadAnchor(edit.from.clone()));
    }
    if hash_to_idx_exec(&chars_of(edit.to.as_str())).is_none() {
        return Err(EditError::BadAnchor(edit.to.clone()));
    }
    let v = chars_of(content);
    if v.len() == 0 {
        return Err(EditError::Stale { anchor: edit.from.clone() });
    }
    let lines = split_lines_chars(&v);
    let ghost ls = split_lines_of(content@);
    proof {
        assert(views(lines@) =~= ls);
    }
    if lines.len() > HASH_SPACE {
        return Err(EditError::TooLarge);
    }
    let idxs = slots_of_lines(&lines);
    proof {
        assert(ints(idxs@) =~= allocate(bases_of(ls)).unwrap().0);
        assert(lines@.map_values(|l: Vec<char>| l@) =~= views(lines@));
    }
    let from = chars_of(edit.from.as_str());
    let to = chars_of(edit.to.as_str());
    let s = match resolve(&idxs, &from) {
        None => {
            return Err(EditError::Stale { anchor: edit.from.clone() });
        },
        Some(k) => k,
    };
    let e = match resolve(&idxs, &to) {
        None => {
            return Err(EditError::Stale { anchor: edit.to.clone() });
        },
        Some(k) => k,
    };
    if s > e {
        return Err(EditError::Reversed { from: edit.from.clone(), to: edit.to.clone() });
    }
    let rep_text = chars_of(edit.content.as_str());
    let rep = if rep_text.len() == 0 {
        Vec::new()
    } else {
        split_lines_chars(&rep_text)
    };
    proof {
        assert(views(rep@) =~= replacement_of(edit.content@));
    }
    if s == 0 && e == lines.len() - 1 && rep.len() == 0 {
        return Err(EditError::EmptyFile);
    }
    let mut nl: Vec<Vec<char>> = Vec::new();
    copy_lines(&lines, 0, s, &mut nl);
    copy_lines(&rep, 0, rep.len(), &mut nl);
    copy_lines(&lines, e + 1, lines.len(), &mut nl);
    let ghost snl = spliced(ls, s as int, e as int, replacement_of(edit.content@));
    proof {
        assert(views(rep@).subrange(0, rep@.len() as int) =~= views(rep@));
        assert(ls.take(s as int) =~= views(lines@).subrange(0, s as int));
        assert(ls.skip(e + 1) =~= views(lines@).subrange(e + 1, lines@.len() as int));
        assert(views(nl@) =~= snl);
    }
    let sep = vec!['\n'];
    let mut nc = join_chars(&nl, &sep);
    proof {
        assert(nl@.map_values(|p: Vec<char>| p@) =~= views(nl@));
        assert(sep@ =~= seq!['\n']);
    }
    if v[v.len() - 1] == '\n' && nl.len() > 0 {
        nc.push('\n');
    }
    let slots = match stable_slots_exec(&lines, &idxs, &nl, s, e) {
        None => {
            return Err(EditError::TooLarge);
        },
        Some(x) => x,
    };
    let hashes = hashes_of_slots(&slots);
    let min_len = if nl.len() <= lines.len() {
        nl.len()
    } else {
        lines.len()
    };
    let lo = prefix_len(&nl, &lines, min_len);
    let hi = suffix_len(&nl, &lines, min_len - lo);
    let last = if nl.len() >= hi {
        nl.len() - hi
    } else {
        0
    };
    let ed = Edited { content: string_of(&nc), hashes, first_changed: lo + 1, last_changed: last };
    proof {
        let slots_s = stable_slots(ls, ints(idxs@), snl, s as int, e as int).unwrap();
        assert(slots_s == ints(slots@));
        assert forall|i: int| 0 <= i < slots_s.len() implies #[trigger] ed.hashes@[i]@ == idx_to_hash(slots_s[i]) by {
            assert(slots_s[i] == slots@[i] as int);
        }
    }
    Ok(ed)
}

/// The nearest-line search only returns lines it has looked at.
proof fn lemma_nearest_range(asg: Seq<Option<int>>, ncanon: Seq<Seq<char>>, c: Seq<char>, t: int, m: int)
    ensures
        nearest_upto(asg, ncanon, c, t, m) matches Some(j) ==> 0 <= j < m,
    decreases m,
{
    if m > 0 {
        lemma_nearest_range(asg, ncanon, c, t, m - 1);
    }
}

/// A free line with the canon, at the target itself, is the nearest.
proof fn lemma_nearest_self(asg: Seq<Option<int>>, ncanon: Seq<Seq<char>>, c: Seq<char>, t: int, m: int)
    requires
        0 <= t < m,
        asg[t] is None,
        ncanon[t] == c,
    ensures
        nearest_upto(asg, ncanon, c, t, m) == Some(t),
    decreases m,
{
    if m == t + 1 {
        lemma_nearest_range(asg, ncanon, c, t, t);
    } else {
        lemma_nearest_self(asg, ncanon, c, t, m - 1);
    }
}

/// With the old and new lines equal outside line `at`, the survivor pass
/// over the first `i` old lines gives each of them (but `at`) its own
/// line, with its old slot.
proof fn lemma_survive_in_place(
    ocanon: Seq<Seq<char>>,
    oi: Seq<int>,
    ncanon: Seq<Seq<char>>,
    at: int,
    i: int,
)
    requires
        ocanon.len() == ncanon.len(),
        oi.len() == ocanon.len(),
        0 <= at < ocanon.len(),
        0 <= i <= ocanon.len(),
        forall|k: int| 0 <= k < ocanon.len() && k != at ==> #[trigger] ncanon[k] == ocanon[k],
    ensures
        survive(ocanon, oi, ncanon, at, at, i).0.len() == ncanon.len(),
        forall|j: int|
            0 <= j < ncanon.len() ==> #[trigger] survive(ocanon, oi, ncanon, at, at, i).0[j] == if j
                < i && j != at {
                Some(oi[j])
            } else {
                None
            },
    decreases i,
{
    if i > 0 {
        lemma_survive_in_place(ocanon, oi, ncanon, at, i - 1);
        let k = i - 1;
        if k != at {
            let asg = survive(ocanon, oi, ncanon, at, at, i - 1).0;
            assert(asg[k] is None);
            assert(ncanon[k] == ocanon[k]);
            lemma_nearest_self(asg, ncanon, ocanon[k], k, ncanon.len() as int);
        }
    }
}

/// The fill pass keeps every survivor's slot at its line.
proof fn lemma_fill_keeps(asg: Seq<Option<int>>, nbases: Seq<int>, oi: Seq<int>, hint0: int, j: int)
    requires
        0 <= j,
    ensures
        fill(asg, nbases, oi, hint0, j) matches Some((res, u, h)) ==> res.len() == j && forall|q: int|
            0 <= q < j ==> (#[trigger] asg[q] matches Some(x) ==> res[q] == x),
    decreases j,
{
    if j > 0 {
        lemma_fill_keeps(asg, nbases, oi, hint0, j - 1);
    }
}

/// Survivor reuse: replacing one line by one line leaves every other
/// line's anchor in place (unless the anchor space is full).
pub proof fn lemma_survivors_keep_anchors(content: Seq<char>, a: Seq<char>, rep_text: Seq<char>)
    requires
        content.len() > 0,
        split_lines_of(content).len() <= HASH_SPACE,
        anchor_pos(line_anchors(content).unwrap(), a) is Some,
        replacement_of(rep_text).len() == 1,
    ensures
        match edit_outcome(content, a, a, rep_text) {
            EditOutcome::Done(_, slots, _, _) => {
                &&& slots.len() == split_lines_of(content).len()
                &&& forall|k: int|
                    0 <= k < slots.len() && k != anchor_pos(line_anchors(content).unwrap(), a).unwrap()
                        ==> idx_to_hash(#[trigger] slots[k]) == line_anchors(content).unwrap()[k]
            },
            EditOutcome::TooLarge => true,
            _ => false,
        },
{
    let lines = split_lines_of(content);
    let n = lines.len();
    lemma_bases_in_range(lines);
    lemma_allocate(bases_of(lines));
    let oi = line_slots(content).unwrap();
    let anchors = line_anchors(content).unwrap();
    let at = anchor_pos(anchors, a).unwrap();
    assert(0 <= at < n) by {
        let w = choose|k: int| 0 <= k < anchors.len() && anchors[k] == a;
        assert(anchors.len() == n);
    }
    let rep = replacement_of(rep_text);
    let nl = spliced(lines, at, at, rep);
    assert(nl.len() == n);
    assert forall|k: int| 0 <= k < n && k != at implies #[trigger] nl[k] == lines[k] by {
        if k < at {
            assert(nl[k] == lines.take(at)[k]);
        } else {
            assert(nl[k] == lines.skip(at + 1)[k - at - 1]);
        }
    }
    let ocanon = lines.map_values(|l: Seq<char>| canon_of(l));
    let ncanon = nl.map_values(|l: Seq<char>| canon_of(l));
    assert forall|k: int| 0 <= k < ocanon.len() && k != at implies #[trigger] ncanon[k] == ocanon[k] by {
        assert(nl[k] == lines[k]);
    }
    lemma_survive_in_place(ocanon, oi, ncanon, at, n as int);
    let (asg, hint) = survive(ocanon, oi, ncanon, at, at, n as int);
    lemma_fill_keeps(asg, bases_of(nl), oi, hint, n as int);
    match fill(asg, bases_of(nl), oi, hint, n as int) {
        None => {},
        Some((res, u, h)) => {
            assert forall|k: int| 0 <= k < res.len() && k != at implies idx_to_hash(#[trigger] res[k])
                == anchors[k] by {
                assert(asg[k] == Some(oi[k]));
            }
        },
    }
}

/// An anchor that is not in the file is refused as stale, never matched
/// to a nearby line.
pub proof fn lemma_unknown_anchor_is_stale(content: Seq<char>, from: Seq<char>, to: Seq<char>, rep_text: Seq<char>)
    requires
        split_lines_of(content).len() <= HASH_SPACE,
        hash_to_idx(from) is Some,
        hash_to_idx(to) is Some,
        content.len() == 0 || anchor_pos(line_anchors(content).unwrap(), from) is None,
    ensures
        edit_outcome(content, from, to, rep_text) == EditOutcome::Stale(from),
{
}

/// A malformed anchor (not a 3-character anchor of the alphabet) is
/// refused as such, whatever the file holds: the `from` anchor first,
/// then the `to` anchor.
pub proof fn lemma_malformed_anchor_is_refused(content: Seq<char>, from: Seq<char>, to: Seq<char>, rep_text: Seq<char>)
    requires
        hash_to_idx(from) is None || hash_to_idx(to) is None,
    ensures
        edit_outcome(content, from, to, rep_text) == (if hash_to_idx(from) is None {
            EditOutcome::BadAnchor(from)
        } else {
            EditOutcome::BadAnchor(to)
        }),
{
}

proof fn lemma_fill_some(asg: Seq<Option<int>>, nbases: Seq<int>, oi: Seq<int>, hint0: int, j: int)
    requires
        0 <= j,
        oi.len() + j <= HASH_SPACE,
    ensures
        fill(asg, nbases, oi, hint0, j) is Some,
        fill(asg, nbases, oi, hint0, j).unwrap().1.len() <= oi.len() + j,
    decreases j,
{
    if j > 0 {
        lemma_fill_some(asg, nbases, oi, hint0, j - 1);
        let (res, used, hint) = fill(asg, nbases, oi, hint0, j - 1).unwrap();
        if asg[j - 1] is None && used.contains(nbases[j - 1]) {
            lemma_probe_finds(used, hint);
        }
    }
}

/// An edit on anchors of the file always applies, when the anchor space
/// holds the old and the new lines together (the old slots stay reserved
/// while the new lines are placed): well-formed, in order, and not
/// emptying the file, it is done, never refused as too large.
pub proof fn lemma_edit_on_file_anchors_applies(content: Seq<char>, from: Seq<char>, to: Seq<char>, rep_text: Seq<char>)
    requires
        content.len() > 0,
        split_lines_of(content).len() <= HASH_SPACE,
        anchor_pos(line_anchors(content).unwrap(), from) is Some,
        anchor_pos(line_anchors(content).unwrap(), to) is Some,
        anchor_pos(line_anchors(content).unwrap(), from).unwrap() <= anchor_pos(line_anchors(content).unwrap(), to).unwrap(),
        replacement_of(rep_text).len() > 0,
        2 * split_lines_of(content).len() + replacement_of(rep_text).len() <= HASH_SPACE,
    ensures
        edit_outcome(content, from, to, rep_text) is Done,
{
    let lines = split_lines_of(content);
    lemma_anchors_unique(content);
    let anchors = line_anchors(content).unwrap();
    let s = anchor_pos(anchors, from).unwrap();
    let e = anchor_pos(anchors, to).unwrap();
    assert(0 <= s < anchors.len() && anchors[s] == from) by {
        let w = choose|k: int| 0 <= k < anchors.len() && anchors[k] == from;
    }
    assert(0 <= e < anchors.len() && anchors[e] == to) by {
        let w = choose|k: int| 0 <= k < anchors.len() && anchors[k] == to;
    }
    assert(hash_to_idx(anchors[s]) is Some);
    assert(hash_to_idx(anchors[e]) is Some);
    let oi = line_slots(content).unwrap();
    lemma_bases_in_range(lines);
    lemma_allocate(bases_of(lines));
    let rep = replacement_of(rep_text);
    let nl = spliced(lines, s, e, rep);
    assert(nl.len() <= lines.len() + rep.len());
    let ocanon = lines.map_values(|l: Seq<char>| canon_of(l));
    let ncanon = nl.map_values(|l: Seq<char>| canon_of(l));
    let (asg, hint) = survive(ocanon, oi, ncanon, s, e, lines.len() as int);
    lemma_fill_some(asg, bases_of(nl), oi, hint, nl.len() as int);
}

proof fn lemma_lines_lack_newline(s: Seq<char>)
    ensures
        forall|i: int| 0 <= i < split_lines_of(s).len() ==> !(#[trigger] split_lines_of(s)[i]).contains('\n'),
{
    crate::text::lemma_split_pieces_lack(s, '\n');
    if s.len() > 0 {
        let p = crate::text::split(s, '\n');
        crate::text::lemma_split_nonempty(s, '\n');
        assert forall|i: int| 0 <= i < split_lines_of(s).len() implies !(#[trigger] split_lines_of(s)[i]).contains('\n') by {
            if p.last().len() == 0 {
                assert(split_lines_of(s) == p.drop_last());
                assert(split_lines_of(s)[i] == p[i]);
            } else {
                assert(split_lines_of(s) == p);
            }
            assert(!p[i].contains('\n'));
        }
    }
}

proof fn lemma_spliced_line_count(content: Seq<char>, nl: Seq<Seq<char>>)
    requires
        nl.len() >= 1,
        forall|i: int| 0 <= i < nl.len() ==> !(#[trigger] nl[i]).contains('\n'),
    ensures
        split_lines_of(spliced_content(content, nl)).len() <= nl.len(),
{
    let j = crate::text::join(nl, seq!['\n']);
    crate::text::lemma_split_join(nl, '\n');
    let c2 = spliced_content(content, nl);
    if content.len() > 0 && content.last() == '\n' {
        assert(c2 == j.push('\n'));
        assert(c2.drop_last() =~= j);
        assert(crate::text::split(c2, '\n') == nl.push(Seq::<char>::empty()));
    }
}

/// An edit that applies leaves a file whose own anchors are pairwise
/// distinct, when the anchor space holds its old and new lines together
/// (the conditions under which it always applies).
pub proof fn lemma_edited_file_anchors_unique(content: Seq<char>, from: Seq<char>, to: Seq<char>, rep_text: Seq<char>)
    requires
        content.len() > 0,
        split_lines_of(content).len() <= HASH_SPACE,
        anchor_pos(line_anchors(content).unwrap(), from) is Some,
        anchor_pos(line_anchors(content).unwrap(), to) is Some,
        anchor_pos(line_anchors(content).unwrap(), from).unwrap() <= anchor_pos(line_anchors(content).unwrap(), to).unwrap(),
        replacement_of(rep_text).len() > 0,
        2 * split_lines_of(content).len() + replacement_of(rep_text).len() <= HASH_SPACE,
    ensures
        edit_outcome(content, from, to, rep_text) is Done,
        ({
            let c2 = edit_outcome(content, from, to, rep_text)->Done_0;
            &&& line_anchors(c2) is Some
            &&& forall|i: int, j: int|
                0 <= i < j < line_anchors(c2).unwrap().len() ==> line_anchors(c2).unwrap()[i]
                    != line_anchors(c2).unwrap()[j]
        }),
{
    lemma_edit_on_file_anchors_applies(content, from, to, rep_text);
    lemma_edit_splices(content, from, to, rep_text);
    let lines = split_lines_of(content);
    let anchors = line_anchors(content).unwrap();
    let s = anchor_pos(anchors, from).unwrap();
    let e = anchor_pos(anchors, to).unwrap();
    let rep = replacement_of(rep_text);
    let nl = spliced(lines, s, e, rep);
    lemma_lines_lack_newline(content);
    lemma_lines_lack_newline(rep_text);
    assert forall|i: int| 0 <= i < nl.len() implies !(#[trigger] nl[i]).contains('\n') by {
        if i < s {
            assert(nl[i] == lines[i]);
        } else if i < s + rep.len() {
            assert(nl[i] == rep[i - s]);
        } else {
            assert(nl[i] == lines[i - s - rep.len() + e + 1]);
        }
    }
    lemma_spliced_line_count(content, nl);
    lemma_anchors_unique(spliced_content(content, nl));
}

/// An applied edit's content is the expected splice: the lines before the
/// `from` anchor's line, the replacement lines, and the lines after the
/// `to` anchor's line.
pub proof fn lemma_edit_splices(content: Seq<char>, from: Seq<char>, to: Seq<char>, rep_text: Seq<char>)
    requires
        edit_outcome(content, from, to, rep_text) is Done,
    ensures
        ({
            let anchors = line_anchors(content).unwrap();
            let s = anchor_pos(anchors, from).unwrap();
            let e = anchor_pos(anchors, to).unwrap();
            &&& 0 <= s <= e < split_lines_of(content).len()
            &&& edit_outcome(content, from, to, rep_text)->Done_0 == spliced_content(
                content,
                spliced(split_lines_of(content), s, e, replacement_of(rep_text)),
            )
        }),
{
    let lines = split_lines_of(content);
    lemma_anchors_unique(content);
    let anchors = line_anchors(content).unwrap();
    let s = anchor_pos(anchors, from).unwrap();
    let e = anchor_pos(anchors, to).unwrap();
    assert(0 <= e < anchors.len()) by {
        let w = choose|k: int| 0 <= k < anchors.len() && anchors[k] == to;
    }
    assert(0 <= s < anchors.len()) by {
        let w = choose|k: int| 0 <= k < anchors.len() && anchors[k] == from;
    }
}


proof fn lemma_split_final_newline(x: Seq<char>)
    ensures
        split(x.push('\n'), '\n') == split(x, '\n').push(Seq::<char>::empty()),
{
    assert(x.push('\n').drop_last() =~= x);
}

proof fn lemma_split_last_piece_nonempty(x: Seq<char>)
    requires
        x.len() > 0,
        x.last() != '\n',
    ensures
        split(x, '\n').last().len() > 0,
{
    crate::text::lemma_split_nonempty(x.drop_last(), '\n');
}

/// The replacement lines of an edit are its content's lines as a file's
/// lines are split: a final newline ends the last line and adds no empty
/// line after it. So an edit whose content is `x` followed by a newline
/// does exactly what the edit whose content is `x` does, on every file and
/// between every pair of anchors.
pub proof fn lemma_replacement_final_newline_adds_no_line(x: Seq<char>)
    requires
        x.len() > 0,
        x.last() != '\n',
    ensures
        replacement_of(x.push('\n')) == replacement_of(x),
        forall|content: Seq<char>, from: Seq<char>, to: Seq<char>|
            #[trigger] edit_outcome(content, from, to, x.push('\n')) == edit_outcome(content, from, to, x),
{
    lemma_split_final_newline(x);
    lemma_split_last_piece_nonempty(x);
    assert(split(x.push('\n'), '\n').drop_last() =~= split(x, '\n'));
    assert(replacement_of(x.push('\n')) == replacement_of(x));
}

proof fn lemma_spliced_line_count_exact(content: Seq<char>, nl: Seq<Seq<char>>)
    requires
        nl.len() >= 1,
        forall|i: int| 0 <= i < nl.len() ==> !(#[trigger] nl[i]).contains('\n'),
        nl.last().len() > 0 || (content.len() > 0 && content.last() == '\n'),
    ensures
        split_lines_of(spliced_content(content, nl)) == nl,
{
    let j = join(nl, seq!['\n']);
    crate::text::lemma_split_join(nl, '\n');
    let c2 = spliced_content(content, nl);
    if content.len() > 0 && content.last() == '\n' {
        assert(c2 == j.push('\n'));
        lemma_split_final_newline(j);
        assert(split(c2, '\n').drop_last() =~= nl);
    } else {
        assert(c2 == j);
        assert(j.len() >= nl.last().len());
        assert(split(j, '\n').last() == nl.last());
    }
}

/// Replacing one line with one newline-terminated, non-empty line keeps the
/// file's line count: on a file whose anchor space holds its lines twice
/// over, the edit applies, the new file's lines are the old ones with the
/// anchored line replaced (so as many as before), the new file ends with a
/// newline exactly when the old one did, and the edit is the edit with the
/// newline left off.
pub proof fn lemma_one_line_for_one_keeps_line_count(content: Seq<char>, a: Seq<char>, x: Seq<char>)
    requires
        content.len() > 0,
        2 * split_lines_of(content).len() + 1 <= HASH_SPACE,
        anchor_pos(line_anchors(content).unwrap(), a) is Some,
        x.len() > 0,
        !x.contains('\n'),
    ensures
        edit_outcome(content, a, a, x.push('\n')) is Done,
        split_lines_of(edit_outcome(content, a, a, x.push('\n'))->Done_0).len() == split_lines_of(
            content,
        ).len(),
        edit_outcome(content, a, a, x.push('\n')) == edit_outcome(content, a, a, x),
        split_lines_of(edit_outcome(content, a, a, x.push('\n'))->Done_0) == split_lines_of(content).update(
            anchor_pos(line_anchors(content).unwrap(), a).unwrap(),
            x,
        ),
        (edit_outcome(content, a, a, x.push('\n'))->Done_0.last() == '\n') == (content.last() == '\n'),
{
    let rt = x.push('\n');
    crate::text::lemma_split_extend(Seq::<char>::empty(), x, '\n');
    assert(Seq::<char>::empty() + x =~= x);
    assert(split(x, '\n') =~= seq![x]);
    lemma_split_final_newline(x);
    assert(split(rt, '\n').drop_last() =~= seq![x]);
    assert(replacement_of(rt) == seq![x]);
    lemma_replacement_final_newline_adds_no_line(x);
    assert(edit_outcome(content, a, a, rt) == edit_outcome(content, a, a, x));
    lemma_edit_on_file_anchors_applies(content, a, a, rt);
    lemma_edit_splices(content, a, a, rt);
    let lines = split_lines_of(content);
    let anchors = line_anchors(content).unwrap();
    let s = anchor_pos(anchors, a).unwrap();
    let nl = spliced(lines, s, s, seq![x]);
    assert(nl.len() == lines.len());
    lemma_lines_lack_newline(content);
    assert forall|i: int| 0 <= i < nl.len() implies !(#[trigger] nl[i]).contains('\n') by {
        if i < s {
            assert(nl[i] == lines[i]);
        } else if i == s {
            assert(nl[i] == x);
        } else {
            assert(nl[i] == lines[i]);
        }
    }
    if !(content.last() == '\n') {
        lemma_split_last_piece_nonempty(content);
        assert(lines == split(content, '\n'));
        if s == lines.len() - 1 {
            assert(nl.last() == x);
        } else {
            assert(nl.last() == lines.last());
        }
    }
    lemma_spliced_line_count_exact(content, nl);
    assert(nl =~= lines.update(s, x));
    let j = join(nl, seq!['\n']);
    if content.last() != '\n' {
        assert(nl.last().len() > 0);
        if nl.len() > 1 {
            assert(j == join(nl.drop_last(), seq!['\n']) + seq!['\n'] + nl.last());
        }
        assert(j.last() == nl.last().last());
        assert(nl.last().contains(nl.last().last()));
    }
}

proof fn lemma_join_split(x: Seq<char>)
    ensures
        join(split(x, '\n'), seq!['\n']) == x,
    decreases x.len(),
{
    if x.len() > 0 {
        let y = x.drop_last();
        lemma_join_split(y);
        crate::text::lemma_split_nonempty(y, '\n');
        let p = split(y, '\n');
        if x.last() == '\n' {
            assert(split(x, '\n') == p.push(Seq::<char>::empty()));
            assert(p.push(Seq::<char>::empty()).drop_last() =~= p);
            assert(join(p, seq!['\n']) + seq!['\n'] + Seq::<char>::empty() =~= x);
        } else {
            let q = p.update(p.len() - 1, p.last().push(x.last()));
            assert(split(x, '\n') == q);
            if p.len() == 1 {
                assert(q[0] =~= y.push(x.last()));
            } else {
                assert(q.drop_last() =~= p.drop_last());
                assert(join(q, seq!['\n']) =~= join(p, seq!['\n']).push(x.last()));
            }
            assert(y.push(x.last()) =~= x);
        }
    }
}

/// The replacement lines of an edit are exactly the lines of its content:
/// none holds a newline, and joined with newlines they give the content
/// back, less one final newline. (An empty content replaces with no line.)
pub proof fn lemma_replacement_lines_rejoin(x: Seq<char>)
    requires
        x.len() > 0,
    ensures
        forall|i: int| 0 <= i < replacement_of(x).len() ==> !(#[trigger] replacement_of(x)[i]).contains('\n'),
        join(replacement_of(x), seq!['\n']) == if x.last() == '\n' {
            x.drop_last()
        } else {
            x
        },
        replacement_of(Seq::<char>::empty()).len() == 0,
{
    lemma_lines_lack_newline(x);
    lemma_join_split(x);
    if x.last() == '\n' {
        let y = x.drop_last();
        assert(y.push('\n') =~= x);
        lemma_split_final_newline(y);
        lemma_join_split(y);
        assert(split(x, '\n').drop_last() =~= split(y, '\n'));
    } else {
        lemma_split_last_piece_nonempty(x);
    }
}

} // verus!

//! Observation groups: provenance tags that tie a block of observations to
//! the raw entry range it was derived from, and the reflection round trip
//! that re-derives them from a reflector's `## Group` sections.

use crate::text::{
    is_ws, lemma_find_at, lemma_trim_newlines, lemma_trim_quotes, lemma_words_space,
    lemma_words_token, chars_eq, chars_of, find, find_in_suffix, lemma_find_from_props, lemma_split_nonempty,
    lemma_trim_len, matches_at, push_chars, replace_all, replace_all_chars, slice_vec, split,
    split_chars, string_of, trim, trim_bounds, trim_char, trim_char_range, trim_chars, words,
    words_chars,
};
use vstd::prelude::*;

verus! {

/// A provenance pointer from observations to the raw entries they came from.
#[derive(Debug, Clone, PartialEq, Eq)]
pub struct ObservationGroup {
    /// 16-hex id.
    pub id: String,
    /// `startEntryId:endEntryId`, or comma-joined segments for a merged span.
    pub range: String,
    /// `reflection` for reflected sections; absent for observer appends.
    pub kind: Option<String>,
    pub content: String,
}

/// The character view of a group.
pub struct GroupSpec {
    pub id: Seq<char>,
    pub range: Seq<char>,
    pub kind: Option<Seq<char>>,
    pub content: Seq<char>,
}

pub open spec fn opt_view(o: Option<String>) -> Option<Seq<char>> {
    match o {
        None => None,
        Some(s) => Some(s@),
    }
}

impl View for ObservationGroup {
    type V = GroupSpec;

    open spec fn view(&self) -> GroupSpec {
        GroupSpec { id: self.id@, range: self.range@, kind: opt_view(self.kind), content: self.content@ }
    }
}

pub open spec fn group_views(gs: Seq<ObservationGroup>) -> Seq<GroupSpec> {
    gs.map_values(|g: ObservationGroup| g@)
}

pub open spec fn open_tag() -> Seq<char> {
    "<observation-group "@
}

pub open spec fn close_tag() -> Seq<char> {
    "</observation-group>"@
}

pub proof fn lemma_tag_lens()
    ensures
        open_tag().len() == 19,
        close_tag().len() == 20,
{
    reveal_strlit("<observation-group ");
    reveal_strlit("</observation-group>");
}

/// The next tag in `rest`: where its opening starts, where its attributes
/// end (relative to them), and where the closing tag starts (relative to
/// the opening).
pub open spec fn tag_at(rest: Seq<char>) -> Option<(int, int, int)> {
    match find(rest, open_tag()) {
        None => None,
        Some(st) => match find(rest.skip(st + 19), seq!['>']) {
            None => None,
            Some(ae) => match find(rest.skip(st), close_tag()) {
                None => None,
                Some(cl) => Some((st, ae, cl)),
            },
        },
    }
}

/// The tag's content starts no later than its closing tag (slicing it is
/// defined) and the tag lies inside `rest`.
pub open spec fn tag_fits(rest: Seq<char>, t: (int, int, int)) -> bool {
    let (st, ae, cl) = t;
    &&& 0 <= st
    &&& 0 <= ae
    &&& st + 19 + ae + 1 <= st + cl
    &&& st + cl + 20 <= rest.len()
}

/// The value of the last `key=value` word for `key`, quotes trimmed.
pub open spec fn attr_value(tokens: Seq<Seq<char>>, key: Seq<char>) -> Option<Seq<char>>
    decreases tokens.len(),
{
    if tokens.len() == 0 {
        None
    } else {
        let t = tokens.last();
        match find(t, seq!['=']) {
            Some(i) => if 0 <= i < t.len() && t.take(i) == key {
                Some(trim_char(t.skip(i + 1), '"'))
            } else {
                attr_value(tokens.drop_last(), key)
            },
            None => attr_value(tokens.drop_last(), key),
        }
    }
}

/// The group a tag's attributes and content describe: needs an id and a range.
pub open spec fn group_from(attrs: Seq<char>, content: Seq<char>) -> Option<GroupSpec> {
    let toks = words(attrs);
    match (attr_value(toks, "id"@), attr_value(toks, "range"@)) {
        (Some(id), Some(range)) => Some(
            GroupSpec { id, range, kind: attr_value(toks, "kind"@), content: trim(content) },
        ),
        _ => None,
    }
}

/// Every tag in the text has its attributes closed before its closing tag
/// (the input on which the tag walk is defined).
pub open spec fn groups_ok(rest: Seq<char>) -> bool
    decreases rest.len(),
{
    match tag_at(rest) {
        None => true,
        Some(t) => tag_fits(rest, t) && groups_ok(rest.skip(t.0 + t.2 + 20)),
    }
}

/// The groups of an observation log, in order.
pub open spec fn groups_of(rest: Seq<char>) -> Seq<GroupSpec>
    decreases rest.len(),
{
    match tag_at(rest) {
        None => Seq::empty(),
        Some(t) => if tag_fits(rest, t) {
            let (st, ae, cl) = t;
            let tail = groups_of(rest.skip(st + cl + 20));
            match group_from(rest.subrange(st + 19, st + 19 + ae), rest.subrange(st + 20 + ae, st + cl)) {
                Some(g) => seq![g] + tail,
                None => tail,
            }
        } else {
            Seq::empty()
        },
    }
}

/// One tag located by offsets into `v`, from `r0`.
fn next_tag(v: &[char], r0: usize, open: &[char], close: &[char]) -> (r: Option<(usize, usize, usize)>)
    requires
        r0 <= v@.len(),
        open@ == open_tag(),
        close@ == close_tag(),
    ensures
        r matches Some((st, ae, cl)) ==> tag_at(v@.skip(r0 as int)) == Some((st as int, ae as int, cl as int)),
        r is None ==> tag_at(v@.skip(r0 as int)) is None,
        r matches Some((st, ae, cl)) ==> r0 + st + 19 + ae + 1 <= v@.len() && r0 + st + cl + 20 <= v@.len(),
{
    proof {
        lemma_tag_lens();
    }
    let n = v.len();
    let ghost rest = v@.skip(r0 as int);
    let st = match find_in_suffix(v, open, r0) {
        None => return None,
        Some(k) => k,
    };
    proof {
        lemma_find_from_props(rest, open_tag(), 0);
        assert(st + 19 <= rest.len());
        assert(rest.skip(st + 19) =~= v@.skip(r0 + st + 19));
        assert(rest.skip(st as int) =~= v@.skip(r0 + st));
    }
    let gt = vec!['>'];
    let ae = match find_in_suffix(v, &gt, r0 + st + 19) {
        None => {
            assert(gt@ =~= seq!['>']);
            return None;
        },
        Some(k) => k,
    };
    proof {
        assert(gt@ =~= seq!['>']);
        lemma_find_from_props(v@.skip(r0 + st + 19), seq!['>'], 0);
    }
    let cl = match find_in_suffix(v, close, r0 + st) {
        None => return None,
        Some(k) => k,
    };
    proof {
        lemma_find_from_props(v@.skip(r0 + st), close_tag(), 0);
    }
    Some((st, ae, cl))
}

/// The last value for `key` among the `key=value` words.
fn attr_lookup(tokens: &Vec<Vec<char>>, key: &[char]) -> (r: Option<Vec<char>>)
    ensures
        match (r, attr_value(tokens@.map_values(|t: Vec<char>| t@), key@)) {
            (Some(x), Some(y)) => x@ == y,
            (None, None) => true,
            _ => false,
        },
{
    let ghost ts = tokens@.map_values(|t: Vec<char>| t@);
    let eq = vec!['='];
    let mut found: Option<Vec<char>> = None;
    let mut i: usize = 0;
    while i < tokens.len()
        invariant
            i <= tokens@.len(),
            ts == tokens@.map_values(|t: Vec<char>| t@),
            eq@ == seq!['='],
            match (found, attr_value(ts.take(i as int), key@)) {
                (Some(x), Some(y)) => x@ == y,
                (None, None) => true,
                _ => false,
            },
        decreases tokens@.len() - i,
    {
        assert(ts.take(i + 1).drop_last() =~= ts.take(i as int));
        let t = &tokens[i];
        assert(ts.take(i + 1).last() == t@);
        match find_in_suffix(t, &eq, 0) {
            None => {
                assert(t@.skip(0) =~= t@);
            },
            Some(k) => {
                assert(t@.skip(0) =~= t@);
                proof {
                    lemma_find_from_props(t@, seq!['='], 0);
                    assert(matches_at(t@, seq!['='], k as int));
                }
                let tl = t.len();
                let head = slice_vec(t, 0, k);
                assert(t@.subrange(0, k as int) =~= t@.take(k as int));
                if chars_eq(&head, key) {
                    let val = trim_char_range(t, k + 1, tl, '"');
                    assert(t@.subrange(k + 1, t@.len() as int) =~= t@.skip(k + 1));
                    found = Some(val);
                }
            },
        }
        i = i + 1;
    }
    assert(ts.take(tokens@.len() as int) =~= ts);
    found
}

/// The group a tag describes, if it carries an id and a range.
fn group_of_tag(v: &[char], a0: usize, a1: usize, c0: usize, c1: usize) -> (r: Option<ObservationGroup>)
    requires
        a0 <= a1 <= v@.len(),
        c0 <= c1 <= v@.len(),
    ensures
        match (r, group_from(v@.subrange(a0 as int, a1 as int), v@.subrange(c0 as int, c1 as int))) {
            (Some(g), Some(s)) => g@ == s,
            (None, None) => true,
            _ => false,
        },
{
    let attrs = slice_vec(v, a0, a1);
    let toks = words_chars(&attrs);
    proof {
        assert(toks@.map_values(|t: Vec<char>| t@) =~= words(attrs@));
        reveal_strlit("id");
        reveal_strlit("range");
        reveal_strlit("kind");
    }
    let id = attr_lookup(&toks, &chars_of("id"));
    let range = attr_lookup(&toks, &chars_of("range"));
    let kind = attr_lookup(&toks, &chars_of("kind"));
    match (id, range) {
        (Some(i), Some(rg)) => {
            let (x, y) = trim_bounds(v, c0, c1);
            let content = slice_vec(v, x, y);
            let k = match kind {
                None => None,
                Some(kv) => Some(string_of(&kv)),
            };
            Some(ObservationGroup { id: string_of(&i), range: string_of(&rg), kind: k, content: string_of(&content) })
        },
        _ => None,
    }
}

/// Whether every tag of the log closes its attributes before its closing
/// tag (the logs on which the group walk is defined).
pub fn groups_well_formed(observations: &str) -> (r: bool)
    ensures
        r == groups_ok(observations@),
{
    proof {
        lemma_tag_lens();
    }
    let v = chars_of(observations);
    let open = chars_of("<observation-group ");
    let close = chars_of("</observation-group>");
    let mut r0: usize = 0;
    assert(v@.skip(0) =~= v@);
    while r0 <= v.len()
        invariant
            r0 <= v@.len(),
            v@ == observations@,
            open@ == open_tag(),
            close@ == close_tag(),
            groups_ok(v@) == groups_ok(v@.skip(r0 as int)),
        decreases v@.len() - r0,
    {
        let ghost rest = v@.skip(r0 as int);
        match next_tag(&v, r0, &open, &close) {
            None => {
                return true;
            },
            Some((st, ae, cl)) => {
                if ae + 20 > cl {
                    return false;
                }
                assert(rest.skip(st + cl + 20) =~= v@.skip(r0 + st + cl + 20));
                r0 = r0 + st + cl + 20;
            },
        }
    }
    true
}

/// Extract every observation group from a log, in order.
pub fn parse_observation_groups(observations: &str) -> (r: Vec<ObservationGroup>)
    requires
        groups_ok(observations@),
    ensures
        group_views(r@) == groups_of(observations@),
{
    proof {
        lemma_tag_lens();
    }
    let v = chars_of(observations);
    let open = chars_of("<observation-group ");
    let close = chars_of("</observation-group>");
    let mut out: Vec<ObservationGroup> = Vec::new();
    let mut r0: usize = 0;
    assert(v@.skip(0) =~= v@);
    while r0 <= v.len()
        invariant
            r0 <= v@.len(),
            v@ == observations@,
            open@ == open_tag(),
            close@ == close_tag(),
            groups_ok(v@.skip(r0 as int)),
            groups_of(v@) == group_views(out@) + groups_of(v@.skip(r0 as int)),
        decreases v@.len() - r0,
    {
        let ghost rest = v@.skip(r0 as int);
        match next_tag(&v, r0, &open, &close) {
            None => {
                assert(group_views(out@) + groups_of(rest) =~= group_views(out@));
                return out;
            },
            Some((st, ae, cl)) => {
                let a0 = r0 + st + 19;
                let g = group_of_tag(&v, a0, a0 + ae, a0 + ae + 1, r0 + st + cl);
                proof {
                    assert(rest.subrange(st + 19, st + 19 + ae) =~= v@.subrange(a0 as int, a0 + ae));
                    assert(rest.subrange(st + 20 + ae, st + cl) =~= v@.subrange(a0 + ae + 1, r0 + st + cl));
                    assert(rest.skip(st + cl + 20) =~= v@.skip(r0 + st + cl + 20));
                }
                let ghost before = group_views(out@);
                match g {
                    Some(x) => {
                        out.push(x);
                        assert(group_views(out@) =~= before.push(x@));
                    },
                    None => {},
                }
                r0 = r0 + st + cl + 20;
            },
        }
    }
    out
}

/// The tag wrapping an observation.
pub open spec fn wrapped(obs: Seq<char>, range: Seq<char>, id: Seq<char>, kind: Option<Seq<char>>) -> Seq<char> {
    let kind_attr = match kind {
        None => Seq::empty(),
        Some(k) => " kind=\""@ + k + "\""@,
    };
    "<observation-group id=\""@ + id + "\" range=\""@ + range + "\""@ + kind_attr + ">\n"@ + trim(obs)
        + "\n</observation-group>"@
}

/// Wrap an observation in its group tag.
pub fn wrap_in_observation_group(observations: &str, range: &str, id: &str, kind: Option<&str>) -> (r: String)
    ensures
        r@ == wrapped(observations@, range@, id@, match kind { None => None, Some(k) => Some(k@) }),
{
    let mut s = String::from_str("<observation-group id=\"");
    s.append(id);
    s.append("\" range=\"");
    s.append(range);
    s.append("\"");
    match kind {
        None => {},
        Some(k) => {
            s.append(" kind=\"");
            s.append(k);
            s.append("\"");
        },
    }
    s.append(">\n");
    let v = chars_of(observations);
    let (a, b) = trim_bounds(&v, 0, v.len());
    assert(v@.subrange(0, v@.len() as int) =~= v@);
    let t = slice_vec(&v, a, b);
    push_chars(&mut s, &t);
    s.append("\n</observation-group>");
    proof {
        reveal_strlit("<observation-group id=\"");
        reveal_strlit("\" range=\"");
        reveal_strlit("\"");
        reveal_strlit(" kind=\"");
        reveal_strlit(">\n");
        reveal_strlit("\n</observation-group>");
        let kind_attr = match kind {
            None => Seq::<char>::empty(),
            Some(k) => " kind=\""@ + k@ + "\""@,
        };
        assert(s@ =~= "<observation-group id=\""@ + id@ + "\" range=\""@ + range@ + "\""@ + kind_attr + ">\n"@ + trim(observations@)
        + "\n</observation-group>"@);
    }
    s
}


/// The text with the first tag replaced by its trimmed content.
pub open spec fn strip_step(s: Seq<char>, t: (int, int, int)) -> Seq<char> {
    let (st, ae, cl) = t;
    s.take(st) + trim(s.subrange(st + 20 + ae, st + cl)) + s.skip(st + cl + 20)
}

/// Every tag met while unwrapping has its attributes closed before its
/// closing tag (the input on which unwrapping is defined).
pub open spec fn strip_ok(s: Seq<char>) -> bool
    decreases s.len(),
{
    match tag_at(s) {
        None => true,
        Some(t) => if tag_fits(s, t) {
            proof {
                lemma_trim_len(s.subrange(t.0 + 20 + t.1, t.0 + t.2));
            }
            strip_ok(strip_step(s, t))
        } else {
            false
        },
    }
}

/// The text with every tag unwrapped, searching again from the start after
/// each replacement.
pub open spec fn strip_rec(s: Seq<char>) -> Seq<char>
    decreases s.len(),
{
    match tag_at(s) {
        None => s,
        Some(t) => if tag_fits(s, t) {
            proof {
                lemma_trim_len(s.subrange(t.0 + 20 + t.1, t.0 + t.2));
            }
            strip_rec(strip_step(s, t))
        } else {
            s
        },
    }
}

/// The unwrapped log with blank-line runs collapsed and trimmed.
pub open spec fn stripped(s: Seq<char>) -> Seq<char> {
    trim(replace_all(strip_rec(s), "\n\n\n"@, "\n\n"@))
}

/// Appends `v[lo..hi]` to `out`.
fn append_range(out: &mut Vec<char>, v: &[char], lo: usize, hi: usize)
    requires
        lo <= hi <= v@.len(),
    ensures
        final(out)@ == old(out)@ + v@.subrange(lo as int, hi as int),
{
    let mut part = slice_vec(v, lo, hi);
    out.append(&mut part);
}

/// Collapse blank-line runs of three newlines and trim.
fn tidy(v: &[char]) -> (r: Vec<char>)
    ensures
        r@ == trim(replace_all(v@, "\n\n\n"@, "\n\n"@)),
{
    let p = chars_of("\n\n\n");
    let q = chars_of("\n\n");
    proof {
        reveal_strlit("\n\n\n");
    }
    let r = replace_all_chars(v, &p, &q);
    trim_chars(&r)
}

/// Remove the group tags, keeping their trimmed content.
pub fn strip_observation_groups(observations: &str) -> (r: String)
    requires
        strip_ok(observations@),
    ensures
        r@ == stripped(observations@),
{
    proof {
        lemma_tag_lens();
    }
    let open = chars_of("<observation-group ");
    let close = chars_of("</observation-group>");
    let mut out = chars_of(observations);
    loop
        invariant
            open@ == open_tag(),
            close@ == close_tag(),
            strip_ok(out@),
            strip_rec(out@) == strip_rec(observations@),
        ensures
            strip_rec(out@) == strip_rec(observations@),
            tag_at(out@) is None,
        decreases out@.len(),
    {
        let n = out.len();
        assert(out@.skip(0) =~= out@);
        match next_tag(&out, 0, &open, &close) {
            None => {
                break;
            },
            Some((st, ae, cl)) => {
                let ghost t = (st as int, ae as int, cl as int);
                let (x, y) = trim_bounds(&out, st + 20 + ae, st + cl);
                let mut next: Vec<char> = Vec::new();
                append_range(&mut next, &out, 0, st);
                append_range(&mut next, &out, x, y);
                append_range(&mut next, &out, st + cl + 20, out.len());
                proof {
                    assert(out@.subrange(0, st as int) =~= out@.take(st as int));
                    assert(out@.subrange(st + cl + 20, out@.len() as int) =~= out@.skip(st + cl + 20));
                    assert(next@ =~= strip_step(out@, t));
                    lemma_trim_len(out@.subrange(st + 20 + ae, st + cl));
                }
                out = next;
            },
        }
    }
    let r = tidy(&out);
    string_of(&r)
}

/// The trimmed, non-empty pieces, in order.
pub open spec fn trimmed_nonempty(parts: Seq<Seq<char>>) -> Seq<Seq<char>>
    decreases parts.len(),
{
    if parts.len() == 0 {
        Seq::empty()
    } else {
        let prev = trimmed_nonempty(parts.drop_last());
        let t = trim(parts.last());
        if t.len() > 0 {
            prev.push(t)
        } else {
            prev
        }
    }
}

/// Every comma-separated segment of the ranges, trimmed, empty ones dropped.
pub open spec fn range_segments(ranges: Seq<Seq<char>>) -> Seq<Seq<char>>
    decreases ranges.len(),
{
    if ranges.len() == 0 {
        Seq::empty()
    } else {
        range_segments(ranges.drop_last()) + trimmed_nonempty(split(ranges.last(), ','))
    }
}

/// The span from the first segment's start to the last segment's end.
pub open spec fn combined(ranges: Seq<Seq<char>>) -> Seq<char> {
    let segs = range_segments(ranges);
    if segs.len() == 0 {
        Seq::empty()
    } else {
        trim(split(segs[0], ':')[0]) + seq![':'] + trim(split(segs.last(), ':').last())
    }
}

/// The ranges of the groups, in order.
pub open spec fn ranges_of(gs: Seq<ObservationGroup>) -> Seq<Seq<char>> {
    gs.map_values(|g: ObservationGroup| g.range@)
}

/// Appends the trimmed non-empty comma segments of `range` to `segs`.
pub(crate) fn push_segments(segs: &mut Vec<Vec<char>>, range: &[char])
    ensures
        final(segs)@.len() == old(segs)@.len() + trimmed_nonempty(split(range@, ',')).len(),
        forall|i: int| 0 <= i < old(segs)@.len() ==> #[trigger] final(segs)@[i]@ == old(segs)@[i]@,
        forall|i: int| 0 <= i < trimmed_nonempty(split(range@, ',')).len() ==>
            #[trigger] final(segs)@[old(segs)@.len() + i]@ == trimmed_nonempty(split(range@, ','))[i],
{
    let parts = split_chars(range, ',');
    let ghost ps = split(range@, ',');
    let ghost base = segs@.len();
    let mut i: usize = 0;
    while i < parts.len()
        invariant
            i <= parts@.len(),
            parts@.len() == ps.len(),
            forall|k: int| 0 <= k < parts@.len() ==> #[trigger] parts@[k]@ == ps[k],
            base == old(segs)@.len(),
            segs@.len() == base + trimmed_nonempty(ps.take(i as int)).len(),
            forall|k: int| 0 <= k < base ==> #[trigger] segs@[k]@ == old(segs)@[k]@,
            forall|k: int| 0 <= k < trimmed_nonempty(ps.take(i as int)).len() ==>
                #[trigger] segs@[base + k]@ == trimmed_nonempty(ps.take(i as int))[k],
        decreases parts@.len() - i,
    {
        assert(ps.take(i + 1).drop_last() =~= ps.take(i as int));
        let t = trim_chars(&parts[i]);
        if t.len() > 0 {
            segs.push(t);
        }
        i = i + 1;
    }
    assert(ps.take(parts@.len() as int) =~= ps);
}

/// The span `first.start:last.end` of the given ranges.
pub(crate) fn combine_ranges(ranges: &Vec<Vec<char>>) -> (r: Vec<char>)
    ensures
        r@ == combined(ranges@.map_values(|v: Vec<char>| v@)),
{
    let ghost rs = ranges@.map_values(|v: Vec<char>| v@);
    let mut segs: Vec<Vec<char>> = Vec::new();
    let mut i: usize = 0;
    while i < ranges.len()
        invariant
            i <= ranges@.len(),
            rs == ranges@.map_values(|v: Vec<char>| v@),
            segs@.len() == range_segments(rs.take(i as int)).len(),
            forall|k: int| 0 <= k < segs@.len() ==> #[trigger] segs@[k]@ == range_segments(rs.take(i as int))[k],
        decreases ranges@.len() - i,
    {
        assert(rs.take(i + 1).drop_last() =~= rs.take(i as int));
        let ghost before = segs@;
        push_segments(&mut segs, &ranges[i]);
        proof {
            let prev = range_segments(rs.take(i as int));
            let add = trimmed_nonempty(split(rs[i as int], ','));
            assert(range_segments(rs.take(i + 1)) == prev + add);
            assert forall|k: int| 0 <= k < segs@.len() implies #[trigger] segs@[k]@ == range_segments(
                rs.take(i + 1),
            )[k] by {
                if k < prev.len() {
                    assert(segs@[k]@ == before[k]@);
                } else {
                    assert(segs@[prev.len() + (k - prev.len())]@ == add[k - prev.len()]);
                }
            }
        }
        i = i + 1;
    }
    assert(rs.take(ranges@.len() as int) =~= rs);
    let n = segs.len();
    if n == 0 {
        return Vec::new();
    }
    let first = split_chars(&segs[0], ':');
    let last = split_chars(&segs[n - 1], ':');
    proof {
        lemma_split_nonempty(segs@[0]@, ':');
        lemma_split_nonempty(segs@[n - 1]@, ':');
    }
    let mut r = trim_chars(&first[0]);
    r.push(':');
    let mut tail = trim_chars(&last[last.len() - 1]);
    r.append(&mut tail);
    r
}

/// Merge the ranges of several groups into one span: the first segment's
/// start to the last segment's end, or empty when there is no segment.
pub fn combine_group_ranges(groups: &[ObservationGroup]) -> (r: String)
    ensures
        r@ == combined(ranges_of(groups@)),
{
    let mut ranges: Vec<Vec<char>> = Vec::new();
    let mut i: usize = 0;
    while i < groups.len()
        invariant
            i <= groups@.len(),
            ranges@.map_values(|v: Vec<char>| v@) == ranges_of(groups@).take(i as int),
        decreases groups@.len() - i,
    {
        let ghost before = ranges@.map_values(|v: Vec<char>| v@);
        ranges.push(chars_of(groups[i].range.as_str()));
        assert(ranges@.map_values(|v: Vec<char>| v@) =~= before.push(groups@[i as int].range@));
        assert(ranges_of(groups@).take(i + 1) =~= ranges_of(groups@).take(i as int).push(groups@[i as int].range@));
        i = i + 1;
    }
    assert(ranges_of(groups@).take(groups@.len() as int) =~= ranges_of(groups@));
    let r = combine_ranges(&ranges);
    string_of(&r)
}


/// A tag's section for the reflector: the group it describes under its
/// own heading and range, or its bare content when it carries no id and
/// range.
pub open spec fn rendered_section(attrs: Seq<char>, inner: Seq<char>) -> Seq<char> {
    match group_from(attrs, inner) {
        Some(g) => "## Group `"@ + g.id + "`\n_range: `"@ + g.range + "`_\n\n"@ + g.content,
        None => trim(inner),
    }
}

/// Every tag of `rest` replaced by its own section, the text between
/// kept.
pub open spec fn render_walk(rest: Seq<char>) -> Seq<char>
    decreases rest.len(),
{
    match tag_at(rest) {
        None => rest,
        Some(t) => if tag_fits(rest, t) {
            let (st, ae, cl) = t;
            rest.take(st) + rendered_section(rest.subrange(st + 19, st + 19 + ae), rest.subrange(st + 20 + ae, st + cl))
                + render_walk(rest.skip(st + cl + 20))
        } else {
            rest
        },
    }
}

/// The log as the reflector reads it; absent when the log has no group.
pub open spec fn reflection_rendering(obs: Seq<char>) -> Option<Seq<char>> {
    let gs = groups_of(obs);
    if gs.len() == 0 {
        None
    } else {
        Some(trim(replace_all(render_walk(obs), "\n\n\n"@, "\n\n"@)))
    }
}

/// Render a grouped log for the reflector: each group becomes a
/// `## Group` section with its `_range:` line; `None` when the log holds
/// no group.
pub fn render_groups_for_reflection(observations: &str) -> (r: Option<String>)
    requires
        groups_ok(observations@),
    ensures
        match (r, reflection_rendering(observations@)) {
            (Some(x), Some(y)) => x@ == y,
            (None, None) => true,
            _ => false,
        },
{
    proof {
        lemma_tag_lens();
    }
    let groups = parse_observation_groups(observations);
    let ghost gs = groups_of(observations@);
    if groups.len() == 0 {
        return None;
    }
    let v = chars_of(observations);
    let open = chars_of("<observation-group ");
    let close = chars_of("</observation-group>");
    let head = chars_of("## Group `");
    let mid = chars_of("`\n_range: `");
    let tail = chars_of("`_\n\n");
    let mut out: Vec<char> = Vec::new();
    let mut r0: usize = 0;
    assert(v@.skip(0) =~= v@);
    loop
        invariant_except_break
            render_walk(v@) == out@ + render_walk(v@.skip(r0 as int)),
        invariant
            r0 <= v@.len(),
            v@ == observations@,
            open@ == open_tag(),
            close@ == close_tag(),
            head@ == "## Group `"@,
            mid@ == "`\n_range: `"@,
            tail@ == "`_\n\n"@,
            groups_ok(v@.skip(r0 as int)),
        ensures
            render_walk(v@) == out@,
        decreases v@.len() - r0,
    {
        let n = v.len();
        let ghost rest = v@.skip(r0 as int);
        match next_tag(&v, r0, &open, &close) {
            None => {
                append_range(&mut out, &v, r0, v.len());
                assert(v@.subrange(r0 as int, v@.len() as int) =~= rest);
                break;
            },
            Some((st, ae, cl)) => {
                let a0 = r0 + st + 20 + ae;
                let (x, y) = trim_bounds(&v, a0, r0 + st + cl);
                let c = slice_vec(&v, x, y);
                proof {
                    assert(rest.subrange(st + 20 + ae, st + cl) =~= v@.subrange(a0 as int, r0 + st + cl));
                    assert(rest.take(st as int) =~= v@.subrange(r0 as int, r0 + st));
                    assert(rest.skip(st + cl + 20) =~= v@.skip(r0 + st + cl + 20));
                }
                append_range(&mut out, &v, r0, r0 + st);
                proof {
                    assert(rest.subrange(st + 19, st + 19 + ae) =~= v@.subrange(r0 + st + 19, r0 + st + 19 + ae));
                }
                match group_of_tag(&v, r0 + st + 19, r0 + st + 19 + ae, a0, r0 + st + cl) {
                    Some(g) => {
                        let mut sec = head.clone();
                        sec.append(&mut chars_of(g.id.as_str()));
                        sec.append(&mut mid.clone());
                        sec.append(&mut chars_of(g.range.as_str()));
                        sec.append(&mut tail.clone());
                        sec.append(&mut chars_of(g.content.as_str()));
                        out.append(&mut sec);
                    },
                    None => {
                        let mut cc = c;
                        out.append(&mut cc);
                    },
                }
                r0 = r0 + st + cl + 20;
            },
        }
    }
    let r = tidy(&out);
    Some(string_of(&r))
}

/// The lowercase hexadecimal digit of `d` (0..16).
pub open spec fn hex_digit(d: int) -> char {
    if d < 10 {
        (48 + d) as char
    } else {
        (87 + d) as char
    }
}

/// The last `k` hexadecimal digits of `n`, zero-padded.
pub open spec fn hex_fixed(n: nat, k: nat) -> Seq<char>
    decreases k,
{
    if k == 0 {
        Seq::empty()
    } else {
        hex_fixed(n / 16, (k - 1) as nat).push(hex_digit((n % 16) as int))
    }
}

/// Appends the last `k` hexadecimal digits of `n`.
pub(crate) fn push_hex(out: &mut Vec<char>, n: u64, k: usize)
    ensures
        final(out)@ == old(out)@ + hex_fixed(n as nat, k as nat),
    decreases k,
{
    if k > 0 {
        push_hex(out, n / 16, k - 1);
        let d = (n % 16) as u8;
        let c = if d < 10 {
            (48u8 + d) as char
        } else {
            (87u8 + d) as char
        };
        out.push(c);
        assert(out@ =~= old(out)@ + hex_fixed(n as nat, k as nat));
    }
}

/// The 64-bit XXH3 hash of the bytes, as the xxhash-rust crate computes it.
pub uninterp spec fn spec_xxh3_64(input: Seq<u8>) -> u64;

/// `xxhash_rust::xxh3::xxh3_64`: the 64-bit XXH3 hash of `input` (default
/// secret, no seed). The result is taken as a function of the bytes;
/// nothing more is claimed of it.
#[verifier::external_body]
pub(crate) fn xxh3_64(input: &[u8]) -> (r: u64)
    ensures
        r == spec_xxh3_64(input@),
{
    xxhash_rust::xxh3::xxh3_64(input)
}

/// The id derived from a text: its XXH3 hash as 16 lowercase hex digits.
pub open spec fn group_id_of(source: Seq<char>) -> Seq<char> {
    hex_fixed(spec_xxh3_64(vstd::utf8::encode_utf8(source)) as nat, 16)
}

/// A deterministic 16-hex group id: the content hash of `source`.
pub fn generate_group_id(source: &str) -> (r: String)
    ensures
        r@ == group_id_of(source@),
        r@.len() == 16,
{
    let h = xxh3_64(source.as_bytes());
    let mut v: Vec<char> = Vec::new();
    push_hex(&mut v, h, 16);
    proof {
        lemma_hex_len(h as nat, 16);
    }
    string_of(&v)
}

proof fn lemma_hex_len(n: nat, k: nat)
    ensures
        hex_fixed(n, k).len() == k,
    decreases k,
{
    if k > 0 {
        lemma_hex_len(n / 16, (k - 1) as nat);
    }
}

/// A value that can stand in a tag attribute and be read back: no
/// whitespace, no quote, no `>`.
pub open spec fn attr_safe(x: Seq<char>) -> bool {
    forall|i: int| 0 <= i < x.len() ==> !is_ws(#[trigger] x[i]) && x[i] != '"' && x[i] != '>'
}

/// The `key="value"` word of an attribute.
pub open spec fn attr_word(key: Seq<char>, v: Seq<char>) -> Seq<char> {
    key + seq!['=', '"'] + v + seq!['"']
}

/// The attribute text of a wrapped group.
pub open spec fn attr_text(id: Seq<char>, range: Seq<char>, kind: Option<Seq<char>>) -> Seq<char> {
    let base = attr_word("id"@, id) + seq![' '] + attr_word("range"@, range);
    match kind {
        None => base,
        Some(k) => base + seq![' '] + attr_word("kind"@, k),
    }
}

proof fn lemma_word_no_ws(key: Seq<char>, v: Seq<char>)
    requires
        attr_safe(v),
        forall|i: int| 0 <= i < key.len() ==> !is_ws(#[trigger] key[i]) && key[i] != '=' && key[i] != '>',
    ensures
        forall|i: int| 0 <= i < attr_word(key, v).len() ==> !is_ws(#[trigger] attr_word(key, v)[i])
            && attr_word(key, v)[i] != '>',
        find(attr_word(key, v), seq!['=']) == Some(key.len() as int),
        attr_word(key, v).take(key.len() as int) == key,
        trim_char(attr_word(key, v).skip(key.len() as int + 1), '"') == v,
{
    let w = attr_word(key, v);
    assert forall|i: int| 0 <= i < w.len() implies !is_ws(#[trigger] w[i]) && w[i] != '>' by {
        if i < key.len() {
            assert(w[i] == key[i]);
        } else if i == key.len() || i == key.len() + 1 {
        } else if i < key.len() + 2 + v.len() {
            assert(w[i] == v[i - key.len() - 2]);
        }
    }
    assert(w.subrange(key.len() as int, key.len() as int + 1) =~= seq!['=']);
    assert forall|j: int| 0 <= j < key.len() implies !matches_at(w, seq!['='], j) by {
        assert(w.subrange(j, j + 1)[0] == key[j]);
    }
    lemma_find_at(w, seq!['='], key.len() as int, 0);
    assert(w.take(key.len() as int) =~= key);
    assert(w.skip(key.len() as int + 1) =~= seq!['"'] + v + seq!['"']);
    lemma_trim_quotes(v, '"');
}

/// The attribute text's words are its `key="value"` words.
proof fn lemma_attr_words(id: Seq<char>, range: Seq<char>, kind: Option<Seq<char>>)
    requires
        attr_safe(id),
        attr_safe(range),
        kind matches Some(k) ==> attr_safe(k),
    ensures
        words(attr_text(id, range, kind)) == match kind {
            None => seq![attr_word("id"@, id), attr_word("range"@, range)],
            Some(k) => seq![attr_word("id"@, id), attr_word("range"@, range), attr_word("kind"@, k)],
        },
{
    reveal_strlit("id");
    reveal_strlit("range");
    reveal_strlit("kind");
    lemma_word_no_ws("id"@, id);
    lemma_word_no_ws("range"@, range);
    let wi = attr_word("id"@, id);
    let wr = attr_word("range"@, range);
    lemma_words_token(Seq::empty(), wi);
    assert(Seq::<char>::empty() + wi =~= wi);
    assert(words(Seq::<char>::empty()) =~= Seq::<Seq<char>>::empty());
    lemma_words_space(wi, ' ');
    assert(wi + seq![' '] =~= wi.push(' '));
    lemma_words_token(wi + seq![' '], wr);
    match kind {
        None => {},
        Some(k) => {
            lemma_word_no_ws("kind"@, k);
            let wk = attr_word("kind"@, k);
            let b = wi + seq![' '] + wr;
            lemma_words_space(b, ' ');
            assert(b + seq![' '] =~= b.push(' '));
            lemma_words_token(b + seq![' '], wk);
        },
    }
}

/// The attribute values read back from the words.
proof fn lemma_attr_values(id: Seq<char>, range: Seq<char>, kind: Option<Seq<char>>)
    requires
        attr_safe(id),
        attr_safe(range),
        kind matches Some(k) ==> attr_safe(k),
    ensures
        attr_value(words(attr_text(id, range, kind)), "id"@) == Some(id),
        attr_value(words(attr_text(id, range, kind)), "range"@) == Some(range),
        attr_value(words(attr_text(id, range, kind)), "kind"@) == kind,
{
    reveal_strlit("id");
    reveal_strlit("range");
    reveal_strlit("kind");
    lemma_attr_words(id, range, kind);
    lemma_word_no_ws("id"@, id);
    lemma_word_no_ws("range"@, range);
    let wi = attr_word("id"@, id);
    let wr = attr_word("range"@, range);
    let one = seq![wi];
    let two = seq![wi, wr];
    assert(two.drop_last() =~= one);
    assert(one.drop_last() =~= Seq::<Seq<char>>::empty());
    assert("id"@ != "range"@ && "id"@ != "kind"@ && "range"@ != "kind"@) by {
        assert("id"@.len() != "range"@.len());
        assert("id"@.len() != "kind"@.len());
        assert("range"@.len() != "kind"@.len());
    }
    assert(attr_value(Seq::<Seq<char>>::empty(), "kind"@) is None);
    assert(attr_value(Seq::<Seq<char>>::empty(), "range"@) is None);
    assert(attr_value(Seq::<Seq<char>>::empty(), "id"@) is None);
    assert(attr_value(one, "id"@) == Some(id));
    assert(attr_value(one, "range"@) is None);
    assert(attr_value(one, "kind"@) is None);
    assert(attr_value(two, "id"@) == Some(id));
    assert(attr_value(two, "range"@) == Some(range));
    assert(attr_value(two, "kind"@) is None);
    match kind {
        None => {},
        Some(k) => {
            lemma_word_no_ws("kind"@, k);
            let wk = attr_word("kind"@, k);
            let three = seq![wi, wr, wk];
            assert(three.drop_last() =~= two);
            assert(attr_value(three, "id"@) == Some(id));
            assert(attr_value(three, "range"@) == Some(range));
            assert(attr_value(three, "kind"@) == Some(k));
        },
    }
}

/// No character of `s` is `c`.
pub open spec fn lacks(s: Seq<char>, c: char) -> bool {
    forall|i: int| 0 <= i < s.len() ==> #[trigger] s[i] != c
}

/// The attribute text holds no `>` and ends with a quote.
proof fn lemma_attr_shape(id: Seq<char>, range: Seq<char>, kind: Option<Seq<char>>)
    requires
        attr_safe(id),
        attr_safe(range),
        kind matches Some(k) ==> attr_safe(k),
    ensures
        lacks(attr_text(id, range, kind), '>'),
        attr_text(id, range, kind).len() > 0,
        attr_text(id, range, kind).last() == '"',
{
    reveal_strlit("id");
    reveal_strlit("range");
    reveal_strlit("kind");
    lemma_word_no_ws("id"@, id);
    lemma_word_no_ws("range"@, range);
    let a = attr_text(id, range, kind);
    let wi = attr_word("id"@, id);
    let wr = attr_word("range"@, range);
    match kind {
        Some(k) => {
            lemma_word_no_ws("kind"@, k);
        },
        None => {},
    }
    assert forall|i: int| 0 <= i < a.len() implies #[trigger] a[i] != '>' by {
        if i < wi.len() {
            assert(a[i] == wi[i]);
        } else if i == wi.len() {
        } else if i < wi.len() + 1 + wr.len() {
            assert(a[i] == wr[i - wi.len() - 1]);
        } else if i > wi.len() + 1 + wr.len() {
            let wk = attr_word("kind"@, kind->0);
            assert(a[i] == wk[i - wi.len() - 2 - wr.len()]);
        }
    }
}

/// In `open + a + ">\n" + t + "\n" + close`, the first closing tag is the
/// last one, when `a` holds no `>` and ends with a quote and `t` holds no
/// closing tag.
proof fn lemma_no_early_close(a: Seq<char>, t: Seq<char>)
    requires
        lacks(a, '>'),
        a.len() > 0,
        a.last() == '"',
        find(t, close_tag()) is None,
    ensures
        ({
            let w = open_tag() + a + seq!['>', '\n'] + t + seq!['\n'] + close_tag();
            find(w, close_tag()) == Some(22 + a.len() as int + t.len())
        }),
{
    lemma_tag_lens();
    reveal_strlit("<observation-group ");
    reveal_strlit("</observation-group>");
    let ct = close_tag();
    let w = open_tag() + a + seq!['>', '\n'] + t + seq!['\n'] + ct;
    let l = a.len() as int;
    let c = 22 + l + t.len();
    assert(w.len() == c + 20);
    assert(w.subrange(c, c + 20) =~= ct);
    assert(lacks(open_tag(), '>'));
    assert(lacks(ct, '\n'));
    assert(ct[18] == 'p');
    crate::text::lemma_find_from_props(t, ct, 0);
    assert forall|j: int| 0 <= j < c implies !matches_at(w, ct, j) by {
        if matches_at(w, ct, j) {
            let m = w.subrange(j, j + 20);
            if j + 19 < 20 + l {
                assert(m[19] == w[j + 19]);
                if j + 19 < 19 {
                    assert(w[j + 19] == open_tag()[j + 19]);
                } else if j + 19 < 19 + l {
                    assert(w[j + 19] == a[j + 19 - 19]);
                } else {
                    assert(m[18] == w[18 + l]);
                    assert(w[18 + l] == a[l - 1]);
                }
            } else if j <= 20 + l {
                assert(m[20 + l - j] == w[20 + l]);
            } else if j + 19 < 21 + l + t.len() {
                assert(w.subrange(21 + l, 21 + l + t.len()) =~= t);
                assert(t.subrange(j - 21 - l, j - 21 - l + 20) =~= m);
                assert(matches_at(t, ct, j - 21 - l));
            } else {
                assert(m[21 + l + t.len() - j] == w[21 + l + t.len()]);
            }
        }
    }
    lemma_find_at(w, ct, c, 0);
}

/// The one tag of a wrapped group: where its attributes end and where
/// its closing tag starts, and what lies between.
#[verifier::spinoff_prover]
#[verifier::rlimit(40)]
proof fn lemma_wrapped_tag(obs: Seq<char>, range: Seq<char>, id: Seq<char>, kind: Option<Seq<char>>)
    requires
        attr_safe(id),
        attr_safe(range),
        kind matches Some(k) ==> attr_safe(k),
        find(trim(obs), close_tag()) is None,
    ensures
        ({
            let w = wrapped(obs, range, id, kind);
            let a = attr_text(id, range, kind);
            let l = a.len() as int;
            let c = 22 + l + trim(obs).len();
            &&& tag_at(w) == Some((0int, l, c))
            &&& tag_fits(w, (0int, l, c))
            &&& w.subrange(19, 19 + l) == a
            &&& w.subrange(20 + l, c) == seq!['\n'] + trim(obs) + seq!['\n']
            &&& w.skip(c + 20) == Seq::<char>::empty()
            &&& w.take(0) == Seq::<char>::empty()
        }),
{
    lemma_tag_lens();
    let t = trim(obs);
    let a = attr_text(id, range, kind);
    let w = wrapped(obs, range, id, kind);
    let l = a.len() as int;
    assert(w =~= open_tag() + a + seq!['>', '\n'] + t + seq!['\n'] + close_tag()) by {
        reveal_strlit("<observation-group id=\"");
        reveal_strlit("\" range=\"");
        reveal_strlit("\"");
        reveal_strlit(" kind=\"");
        reveal_strlit(">\n");
        reveal_strlit("\n</observation-group>");
        reveal_strlit("<observation-group ");
        reveal_strlit("</observation-group>");
        reveal_strlit("id");
        reveal_strlit("range");
        reveal_strlit("kind");
    }
    let c = 22 + l + t.len();
    lemma_attr_shape(id, range, kind);
    lemma_no_early_close(a, t);
    assert(w.subrange(0, 19) =~= open_tag());
    lemma_find_at(w, open_tag(), 0, 0);
    let rest1 = w.skip(19);
    assert(rest1.subrange(l, l + 1) =~= seq!['>']);
    assert forall|j: int| 0 <= j < l implies !matches_at(rest1, seq!['>'], j) by {
        assert(rest1.subrange(j, j + 1)[0] == a[j]);
    }
    lemma_find_at(rest1, seq!['>'], l, 0);
    assert(w.skip(0) =~= w);
    assert(w.skip(c + 20) =~= Seq::<char>::empty());
    assert(w.take(0) =~= Seq::<char>::empty());
    assert(w.subrange(19, 19 + l) =~= a);
    assert(w.subrange(20 + l, c) =~= seq!['\n'] + t + seq!['\n']);
}

/// Wrapping then parsing gives back the group: the id, range and kind as
/// written and the trimmed observations, when the attribute values are
/// plain words (no whitespace, quote or `>`) and the observations hold no
/// closing tag.
pub proof fn lemma_wrap_parse_round_trip(obs: Seq<char>, range: Seq<char>, id: Seq<char>, kind: Option<Seq<char>>)
    requires
        attr_safe(id),
        attr_safe(range),
        kind matches Some(k) ==> attr_safe(k),
        find(trim(obs), close_tag()) is None,
    ensures
        groups_ok(wrapped(obs, range, id, kind)),
        groups_of(wrapped(obs, range, id, kind)) == seq![GroupSpec { id, range, kind, content: trim(obs) }],
{
    lemma_tag_lens();
    lemma_wrapped_tag(obs, range, id, kind);
    let t = trim(obs);
    let a = attr_text(id, range, kind);
    let w = wrapped(obs, range, id, kind);
    let l = a.len() as int;
    let c = 22 + l + t.len();
    let tail = w.skip(c + 20);
    assert(find(tail, open_tag()) is None);
    lemma_trim_newlines(obs);
    lemma_attr_values(id, range, kind);
    assert(groups_of(tail) =~= Seq::<GroupSpec>::empty());
    assert(groups_ok(tail));
    let g = GroupSpec { id, range, kind, content: t };
    assert(group_from(a, seq!['\n'] + t + seq!['\n']) == Some(g));
    assert(w.skip(0 + c + 20) == tail);
    assert(groups_of(w) == seq![g] + groups_of(tail));
    assert(seq![g] + Seq::<GroupSpec>::empty() =~= seq![g]);
}

/// Unwrapping a wrapped group gives back the trimmed observations (blank
/// runs collapsed), when they hold no group tag of their own.
pub proof fn lemma_wrap_strip_round_trip(obs: Seq<char>, range: Seq<char>, id: Seq<char>, kind: Option<Seq<char>>)
    requires
        attr_safe(id),
        attr_safe(range),
        kind matches Some(k) ==> attr_safe(k),
        find(trim(obs), close_tag()) is None,
        find(trim(obs), open_tag()) is None,
    ensures
        strip_ok(wrapped(obs, range, id, kind)),
        stripped(wrapped(obs, range, id, kind)) == trim(replace_all(trim(obs), "\n\n\n"@, "\n\n"@)),
{
    lemma_tag_lens();
    lemma_wrapped_tag(obs, range, id, kind);
    let t = trim(obs);
    let a = attr_text(id, range, kind);
    let w = wrapped(obs, range, id, kind);
    let l = a.len() as int;
    let c = 22 + l + t.len();
    lemma_trim_newlines(obs);
    let step = strip_step(w, (0int, l, c));
    assert(step =~= t);
    assert(tag_at(t) is None);
    assert(strip_rec(t) == t);
    assert(strip_ok(t));
    crate::text::lemma_trim_len(w.subrange(0 + 20 + l, 0 + c));
}

} // verus!

//! Re-deriving group provenance from a reflector's rewrite: its `## Group`
//! sections keep their ids, inherit the ranges of the source groups whose
//! lines they share, and are re-wrapped as `kind="reflection"` groups.

use crate::om::groups::{
    combine_ranges, combined, generate_group_id, group_id_of, group_views, groups_ok, groups_of,
    parse_observation_groups, range_segments, trimmed_nonempty, wrap_in_observation_group, wrapped,
    GroupSpec, ObservationGroup,
};
use crate::text::{
    chars_of, decimal, join, join_chars, lemma_split_nonempty, lines_chars, lines_of,
    push_decimal, split, split_chars, starts_with, starts_with_exec, string_of, trim, trim_chars,
};
use vstd::prelude::*;

verus! {

/// A reflection section: its heading line and its body.
pub type Section = (Seq<char>, Seq<char>);

/// The finished sections plus the one still open, if any.
pub open spec fn close_section(done: Seq<Section>, cur: Option<Section>) -> Seq<Section> {
    match cur {
        None => done,
        Some((h, b)) => done.push((h, trim(b))),
    }
}

/// The sections after reading `ls` in order: a `## Group ` line opens a
/// section, `_range:` metadata lines are dropped, other lines join the open
/// section's body (each followed by a newline); lines before the first
/// heading are ignored.
pub open spec fn section_state(ls: Seq<Seq<char>>) -> (Seq<Section>, Option<Section>)
    decreases ls.len(),
{
    if ls.len() == 0 {
        (Seq::empty(), None)
    } else {
        let (done, cur) = section_state(ls.drop_last());
        let line = ls.last();
        if starts_with(line, "## Group "@) {
            (close_section(done, cur), Some((trim(line), Seq::empty())))
        } else {
            match cur {
                None => (done, None),
                Some((h, b)) => if starts_with(line, "_range:"@) {
                    (done, cur)
                } else {
                    (done, Some((h, b + line + seq!['\n'])))
                },
            }
        }
    }
}

/// The `## Group` sections of a reflector's output, bodies trimmed.
pub open spec fn sections(content: Seq<char>) -> Seq<Section> {
    let (done, cur) = section_state(lines_of(trim(content)));
    close_section(done, cur)
}

/// Some non-blank line of `gc` is, trimmed, also a line of `body`.
pub open spec fn line_shared(gc: Seq<char>, body: Seq<char>) -> bool {
    exists|i: int, j: int|
        0 <= i < lines_of(gc).len() && 0 <= j < lines_of(body).len() && trim(
            #[trigger] lines_of(gc)[i],
        ).len() > 0 && trim(lines_of(gc)[i]) == trim(#[trigger] lines_of(body)[j])
}

/// The ranges of the groups sharing a line with `body`, in order.
pub open spec fn matching_ranges(gs: Seq<GroupSpec>, body: Seq<char>) -> Seq<Seq<char>>
    decreases gs.len(),
{
    if gs.len() == 0 {
        Seq::empty()
    } else {
        let prev = matching_ranges(gs.drop_last(), body);
        if line_shared(gs.last().content, body) {
            prev.push(gs.last().range)
        } else {
            prev
        }
    }
}

/// The matching groups' ranges, or else the range of the group at the
/// section's index (the last group past the end).
pub open spec fn resolved_ranges(gs: Seq<GroupSpec>, body: Seq<char>, i: int) -> Seq<Seq<char>> {
    let m = matching_ranges(gs, body);
    if m.len() > 0 {
        m
    } else {
        seq![gs[if i < gs.len() - 1 { i } else { gs.len() - 1 }].range]
    }
}

/// The id in a heading's first backquoted span, or `derived-group-N` for
/// the `N`th section.
pub open spec fn heading_id(h: Seq<char>, i: int) -> Seq<char> {
    let parts = split(h, '`');
    if parts.len() >= 2 && trim(parts[1]).len() > 0 {
        trim(parts[1])
    } else {
        "derived-group-"@ + decimal((i + 1) as nat)
    }
}

/// The group a section becomes.
pub open spec fn derived_group(sec: Section, i: int, gs: Seq<GroupSpec>) -> GroupSpec {
    GroupSpec {
        id: heading_id(sec.0, i),
        range: combined(resolved_ranges(gs, sec.1, i)),
        kind: Some("reflection"@),
        content: sec.1,
    }
}

/// One group per section; none without sections or source groups.
pub open spec fn derived(content: Seq<char>, gs: Seq<GroupSpec>) -> Seq<GroupSpec> {
    let secs = sections(content);
    if secs.len() == 0 || gs.len() == 0 {
        Seq::empty()
    } else {
        Seq::new(secs.len(), |i: int| derived_group(secs[i], i, gs))
    }
}

pub open spec fn pair_views(v: Seq<(Vec<char>, Vec<char>)>) -> Seq<Section> {
    v.map_values(|p: (Vec<char>, Vec<char>)| (p.0@, p.1@))
}

pub open spec fn opt_pair_view(c: Option<(Vec<char>, Vec<char>)>) -> Option<Section> {
    match c {
        None => None,
        Some(p) => Some((p.0@, p.1@)),
    }
}

fn close_into(done: &mut Vec<(Vec<char>, Vec<char>)>, cur: Option<(Vec<char>, Vec<char>)>)
    ensures
        pair_views(final(done)@) == close_section(pair_views(old(done)@), opt_pair_view(cur)),
{
    match cur {
        None => {},
        Some((h, b)) => {
            let t = trim_chars(&b);
            let ghost before = pair_views(done@);
            done.push((h, t));
            assert(pair_views(done@) =~= before.push((h@, trim(b@))));
        },
    }
}

/// The `## Group` sections of a reflector's output.
fn reflection_sections(content: &[char]) -> (r: Vec<(Vec<char>, Vec<char>)>)
    ensures
        pair_views(r@) == sections(content@),
{
    let normalized = trim_chars(content);
    let lines = lines_chars(&normalized);
    let ghost ls = lines_of(normalized@);
    let heading = chars_of("## Group ");
    let meta = chars_of("_range:");
    let mut done: Vec<(Vec<char>, Vec<char>)> = Vec::new();
    let mut cur: Option<(Vec<char>, Vec<char>)> = None;
    let mut i: usize = 0;
    assert(pair_views(done@) =~= Seq::<Section>::empty());
    while i < lines.len()
        invariant
            i <= lines@.len() == ls.len(),
            forall|k: int| 0 <= k < ls.len() ==> #[trigger] lines@[k]@ == ls[k],
            heading@ == "## Group "@,
            meta@ == "_range:"@,
            (pair_views(done@), opt_pair_view(cur)) == section_state(ls.take(i as int)),
        decreases lines@.len() - i,
    {
        assert(ls.take(i + 1).drop_last() =~= ls.take(i as int));
        let line = &lines[i];
        assert(ls.take(i + 1).last() == line@);
        if starts_with_exec(line, &heading) {
            let c = cur;
            close_into(&mut done, c);
            cur = Some((trim_chars(line), Vec::new()));
        } else {
            let c = cur;
            match c {
                None => {
                    cur = None;
                },
                Some((h, b)) => {
                    if starts_with_exec(line, &meta) {
                        cur = Some((h, b));
                    } else {
                        let mut nb = b;
                        let mut piece = line.clone();
                        nb.append(&mut piece);
                        nb.push('\n');
                        cur = Some((h, nb));
                    }
                },
            }
        }
        i = i + 1;
    }
    assert(ls.take(lines@.len() as int) =~= ls);
    close_into(&mut done, cur);
    done
}

/// Each line trimmed.
fn trimmed_lines(v: &[char]) -> (r: Vec<Vec<char>>)
    ensures
        r@.len() == lines_of(v@).len(),
        forall|i: int| 0 <= i < r@.len() ==> #[trigger] r@[i]@ == trim(lines_of(v@)[i]),
{
    let ls = lines_chars(v);
    let mut r: Vec<Vec<char>> = Vec::new();
    let mut i: usize = 0;
    while i < ls.len()
        invariant
            i <= ls@.len() == lines_of(v@).len(),
            forall|k: int| 0 <= k < ls@.len() ==> #[trigger] ls@[k]@ == lines_of(v@)[k],
            r@.len() == i,
            forall|k: int| 0 <= k < i ==> #[trigger] r@[k]@ == trim(lines_of(v@)[k]),
        decreases ls@.len() - i,
    {
        r.push(trim_chars(&ls[i]));
        i = i + 1;
    }
    r
}

/// Whether some non-empty trimmed line of the group is a trimmed body line.
fn shares_line(g: &Vec<Vec<char>>, b: &Vec<Vec<char>>, Ghost(gc): Ghost<Seq<char>>, Ghost(body): Ghost<Seq<char>>) -> (r: bool)
    requires
        g@.len() == lines_of(gc).len(),
        forall|i: int| 0 <= i < g@.len() ==> #[trigger] g@[i]@ == trim(lines_of(gc)[i]),
        b@.len() == lines_of(body).len(),
        forall|i: int| 0 <= i < b@.len() ==> #[trigger] b@[i]@ == trim(lines_of(body)[i]),
    ensures
        r == line_shared(gc, body),
{
    let mut i: usize = 0;
    while i < g.len()
        invariant
            i <= g@.len() == lines_of(gc).len(),
            forall|k: int| 0 <= k < g@.len() ==> #[trigger] g@[k]@ == trim(lines_of(gc)[k]),
            b@.len() == lines_of(body).len(),
            forall|k: int| 0 <= k < b@.len() ==> #[trigger] b@[k]@ == trim(lines_of(body)[k]),
            forall|k: int, j: int|
                0 <= k < i && 0 <= j < lines_of(body).len() && trim(#[trigger] lines_of(gc)[k]).len() > 0
                    ==> trim(lines_of(gc)[k]) != trim(#[trigger] lines_of(body)[j]),
        decreases g@.len() - i,
    {
        if g[i].len() > 0 {
            let mut j: usize = 0;
            while j < b.len()
                invariant
                    i < g@.len() == lines_of(gc).len(),
                    g@[i as int]@ == trim(lines_of(gc)[i as int]),
                    b@.len() == lines_of(body).len(),
                    forall|k: int| 0 <= k < b@.len() ==> #[trigger] b@[k]@ == trim(lines_of(body)[k]),
                    j <= b@.len(),
                    trim(lines_of(gc)[i as int]).len() > 0,
                    forall|m: int| 0 <= m < j ==> trim(lines_of(gc)[i as int]) != trim(#[trigger] lines_of(body)[m]),
                decreases b@.len() - j,
            {
                if crate::text::chars_eq(&g[i], &b[j]) {
                    assert(b@[j as int]@ == trim(lines_of(body)[j as int]));
                    return true;
                }
                j = j + 1;
            }
        }
        i = i + 1;
    }
    false
}

/// The ranges of the groups that share a line with the body, in order.
fn matching_group_ranges(
    glines: &Vec<Vec<Vec<char>>>,
    ranges: &Vec<Vec<char>>,
    blines: &Vec<Vec<char>>,
    Ghost(gs): Ghost<Seq<GroupSpec>>,
    Ghost(body): Ghost<Seq<char>>,
) -> (r: Vec<Vec<char>>)
    requires
        glines@.len() == gs.len(),
        ranges@.len() == gs.len(),
        forall|k: int| 0 <= k < gs.len() ==> #[trigger] ranges@[k]@ == gs[k].range,
        forall|k: int| 0 <= k < gs.len() ==> (#[trigger] glines@[k])@.len() == lines_of(gs[k].content).len(),
        forall|k: int, i: int| 0 <= k < gs.len() && 0 <= i < lines_of(gs[k].content).len() ==>
            (#[trigger] glines@[k]@[i])@ == trim(lines_of(gs[k].content)[i]),
        blines@.len() == lines_of(body).len(),
        forall|i: int| 0 <= i < blines@.len() ==> #[trigger] blines@[i]@ == trim(lines_of(body)[i]),
    ensures
        r@.map_values(|v: Vec<char>| v@) == matching_ranges(gs, body),
{
    let mut r: Vec<Vec<char>> = Vec::new();
    let mut k: usize = 0;
    while k < glines.len()
        invariant
            k <= glines@.len() == gs.len(),
            ranges@.len() == gs.len(),
            forall|q: int| 0 <= q < gs.len() ==> #[trigger] ranges@[q]@ == gs[q].range,
            forall|q: int| 0 <= q < gs.len() ==> (#[trigger] glines@[q])@.len() == lines_of(gs[q].content).len(),
            forall|q: int, i: int| 0 <= q < gs.len() && 0 <= i < lines_of(gs[q].content).len() ==>
                (#[trigger] glines@[q]@[i])@ == trim(lines_of(gs[q].content)[i]),
            blines@.len() == lines_of(body).len(),
            forall|i: int| 0 <= i < blines@.len() ==> #[trigger] blines@[i]@ == trim(lines_of(body)[i]),
            r@.map_values(|v: Vec<char>| v@) == matching_ranges(gs.take(k as int), body),
        decreases glines@.len() - k,
    {
        assert(gs.take(k + 1).drop_last() =~= gs.take(k as int));
        assert(gs.take(k + 1).last() == gs[k as int]);
        let ghost before = r@.map_values(|v: Vec<char>| v@);
        if shares_line(&glines[k], blines, Ghost(gs[k as int].content), Ghost(body)) {
            r.push(ranges[k].clone());
            assert(r@.map_values(|v: Vec<char>| v@) =~= before.push(gs[k as int].range));
        }
        k = k + 1;
    }
    assert(gs.take(glines@.len() as int) =~= gs);
    r
}

/// Where a range starts: the part before the colon in its first non-empty
/// comma segment.
pub open spec fn range_start(r: Seq<char>) -> Seq<char> {
    trim(split(trimmed_nonempty(split(r, ','))[0], ':')[0])
}

/// Where a range ends: the part after the last colon in its last non-empty
/// comma segment.
pub open spec fn range_end(r: Seq<char>) -> Seq<char> {
    trim(split(trimmed_nonempty(split(r, ',')).last(), ':').last())
}

proof fn lemma_no_match_none(gs: Seq<GroupSpec>, body: Seq<char>)
    requires
        forall|k: int| 0 <= k < gs.len() ==> !line_shared(#[trigger] gs[k].content, body),
    ensures
        matching_ranges(gs, body).len() == 0,
    decreases gs.len(),
{
    if gs.len() > 0 {
        assert(!line_shared(gs[gs.len() - 1].content, body));
        assert forall|k: int| 0 <= k < gs.drop_last().len() implies !line_shared(
            #[trigger] gs.drop_last()[k].content,
            body,
        ) by {
            assert(gs.drop_last()[k] == gs[k]);
        }
        lemma_no_match_none(gs.drop_last(), body);
    }
}

proof fn lemma_match_first(gs: Seq<GroupSpec>, body: Seq<char>, p: int)
    requires
        0 <= p < gs.len(),
        line_shared(gs[p].content, body),
        forall|k: int| 0 <= k < p ==> !line_shared(#[trigger] gs[k].content, body),
    ensures
        matching_ranges(gs, body).len() > 0,
        matching_ranges(gs, body)[0] == gs[p].range,
    decreases gs.len(),
{
    let init = gs.drop_last();
    if p == gs.len() - 1 {
        assert forall|k: int| 0 <= k < init.len() implies !line_shared(#[trigger] init[k].content, body) by {
            assert(init[k] == gs[k]);
        }
        lemma_no_match_none(init, body);
    } else {
        assert forall|k: int| 0 <= k < p implies !line_shared(#[trigger] init[k].content, body) by {
            assert(init[k] == gs[k]);
        }
        assert(init[p] == gs[p]);
        lemma_match_first(init, body, p);
    }
}

proof fn lemma_match_last(gs: Seq<GroupSpec>, body: Seq<char>, q: int)
    requires
        0 <= q < gs.len(),
        line_shared(gs[q].content, body),
        forall|k: int| q < k < gs.len() ==> !line_shared(#[trigger] gs[k].content, body),
    ensures
        matching_ranges(gs, body).len() > 0,
        matching_ranges(gs, body).last() == gs[q].range,
    decreases gs.len(),
{
    let init = gs.drop_last();
    if q < gs.len() - 1 {
        assert(!line_shared(gs[gs.len() - 1].content, body));
        assert forall|k: int| q < k < init.len() implies !line_shared(#[trigger] init[k].content, body) by {
            assert(init[k] == gs[k]);
        }
        assert(init[q] == gs[q]);
        lemma_match_last(init, body, q);
    }
}

proof fn lemma_segments_first(rs: Seq<Seq<char>>)
    requires
        rs.len() > 0,
        trimmed_nonempty(split(rs[0], ',')).len() > 0,
    ensures
        range_segments(rs).len() > 0,
        range_segments(rs)[0] == trimmed_nonempty(split(rs[0], ','))[0],
    decreases rs.len(),
{
    if rs.len() == 1 {
        assert(range_segments(rs.drop_last()) =~= Seq::<Seq<char>>::empty());
        assert(range_segments(rs) =~= trimmed_nonempty(split(rs[0], ',')));
    } else {
        assert(rs.drop_last()[0] == rs[0]);
        lemma_segments_first(rs.drop_last());
    }
}

proof fn lemma_segments_last(rs: Seq<Seq<char>>)
    requires
        rs.len() > 0,
        trimmed_nonempty(split(rs.last(), ',')).len() > 0,
    ensures
        range_segments(rs).len() > 0,
        range_segments(rs).last() == trimmed_nonempty(split(rs.last(), ',')).last(),
{
}

/// Every source group that shares a non-blank trimmed line with a section
/// gives its range to the group the section becomes: the derived range
/// runs from the start of the first such group's range to the end of the
/// last such group's range, so the span covers all of them (when those two
/// ranges have a segment each).
pub proof fn lemma_derived_range_spans_sharing_groups(
    content: Seq<char>,
    gs: Seq<GroupSpec>,
    i: int,
    p: int,
    q: int,
)
    requires
        0 <= i < sections(content).len(),
        0 <= p <= q < gs.len(),
        line_shared(gs[p].content, sections(content)[i].1),
        line_shared(gs[q].content, sections(content)[i].1),
        forall|k: int| 0 <= k < p ==> !line_shared(#[trigger] gs[k].content, sections(content)[i].1),
        forall|k: int| q < k < gs.len() ==> !line_shared(#[trigger] gs[k].content, sections(content)[i].1),
        trimmed_nonempty(split(gs[p].range, ',')).len() > 0,
        trimmed_nonempty(split(gs[q].range, ',')).len() > 0,
    ensures
        derived(content, gs).len() == sections(content).len(),
        derived(content, gs)[i].range == range_start(gs[p].range) + seq![':'] + range_end(gs[q].range),
{
    let body = sections(content)[i].1;
    lemma_match_first(gs, body, p);
    lemma_match_last(gs, body, q);
    let m = matching_ranges(gs, body);
    lemma_segments_first(m);
    lemma_segments_last(m);
    assert(resolved_ranges(gs, body, i) == m);
    assert(derived(content, gs)[i] == derived_group(sections(content)[i], i, gs));
}

/// Every section becomes one group, marked as a reflection and holding the
/// section's body; a section that shares no line with any source group
/// takes the range of the source group at its own position (the last
/// source group for a section past the end), from its start to its end.
pub proof fn lemma_derived_group_without_shared_line(content: Seq<char>, gs: Seq<GroupSpec>, i: int)
    requires
        0 <= i < sections(content).len(),
        gs.len() > 0,
    ensures
        derived(content, gs).len() == sections(content).len(),
        derived(content, gs)[i].kind == Some("reflection"@),
        derived(content, gs)[i].content == sections(content)[i].1,
        ({
            let r = gs[if i < gs.len() - 1 { i } else { gs.len() - 1 }].range;
            (forall|k: int| 0 <= k < gs.len() ==> !line_shared(#[trigger] gs[k].content, sections(content)[i].1))
                && trimmed_nonempty(split(r, ',')).len() > 0 ==> derived(content, gs)[i].range == range_start(r)
                + seq![':'] + range_end(r)
        }),
{
    let body = sections(content)[i].1;
    assert(derived(content, gs)[i] == derived_group(sections(content)[i], i, gs));
    let r = gs[if i < gs.len() - 1 { i } else { gs.len() - 1 }].range;
    if (forall|k: int| 0 <= k < gs.len() ==> !line_shared(#[trigger] gs[k].content, body)) && trimmed_nonempty(
        split(r, ','),
    ).len() > 0 {
        lemma_no_match_none(gs, body);
        assert(resolved_ranges(gs, body, i) == seq![r]);
        lemma_segments_first(seq![r]);
        lemma_segments_last(seq![r]);
    }
}

proof fn lemma_split_keeps_front(x: Seq<char>, r: Seq<char>, c: char)
    ensures
        split(x + r, c).len() >= split(x, c).len(),
        forall|i: int| 0 <= i < split(x, c).len() - 1 ==> #[trigger] split(x + r, c)[i] == split(x, c)[i],
    decreases r.len(),
{
    lemma_split_nonempty(x, c);
    if r.len() == 0 {
        assert(x + r =~= x);
    } else {
        let r0 = r.drop_last();
        lemma_split_keeps_front(x, r0, c);
        assert((x + r).drop_last() =~= x + r0);
        assert((x + r).last() == r.last());
        lemma_split_nonempty(x + r0, c);
    }
}

proof fn lemma_split_one_piece(x: Seq<char>, c: char)
    requires
        !x.contains(c),
    ensures
        split(x, c) == seq![x],
{
    crate::text::lemma_split_extend(Seq::<char>::empty(), x, c);
    assert(Seq::<char>::empty() + x =~= x);
    assert(split(Seq::<char>::empty(), c).update(0, Seq::<char>::empty() + x) =~= seq![x]);
}

/// Each section keeps the id its heading names between the first pair of
/// backquotes (trimmed); a heading without a backquote gives the `N`th
/// section the id `derived-group-N`.
pub proof fn lemma_derived_group_keeps_heading_id(
    content: Seq<char>,
    gs: Seq<GroupSpec>,
    i: int,
    pre: Seq<char>,
    id: Seq<char>,
    rest: Seq<char>,
)
    requires
        0 <= i < sections(content).len(),
        gs.len() > 0,
    ensures
        sections(content)[i].0 == pre + seq!['`'] + id + seq!['`'] + rest && !pre.contains('`') && !id.contains(
            '`',
        ) && trim(id).len() > 0 ==> derived(content, gs)[i].id == trim(id),
        !sections(content)[i].0.contains('`') ==> derived(content, gs)[i].id == "derived-group-"@ + decimal(
            (i + 1) as nat,
        ),
{
    let h = sections(content)[i].0;
    assert(derived(content, gs)[i] == derived_group(sections(content)[i], i, gs));
    if !h.contains('`') {
        lemma_split_one_piece(h, '`');
    }
    if h == pre + seq!['`'] + id + seq!['`'] + rest && !pre.contains('`') && !id.contains('`') {
        let a = pre.push('`');
        let b = a + id;
        let d = b.push('`');
        lemma_split_one_piece(pre, '`');
        assert(a.drop_last() =~= pre);
        assert(split(a, '`') =~= seq![pre, Seq::<char>::empty()]);
        crate::text::lemma_split_extend(a, id, '`');
        assert(Seq::<char>::empty() + id =~= id);
        assert(split(b, '`') =~= seq![pre, id]);
        assert(d.drop_last() =~= b);
        assert(split(d, '`') =~= seq![pre, id, Seq::<char>::empty()]);
        assert(h =~= d + rest);
        lemma_split_keeps_front(d, rest, '`');
        assert(split(h, '`')[1] == id);
    }
}

/// The id of a section's heading, or `derived-group-N`.
fn heading_id_exec(h: &[char], i: usize) -> (r: Vec<char>)
    requires
        i < usize::MAX,
    ensures
        r@ == heading_id(h@, i as int),
{
    let parts = split_chars(h, '`');
    if parts.len() >= 2 {
        let t = trim_chars(&parts[1]);
        if t.len() > 0 {
            return t;
        }
    }
    let mut r = chars_of("derived-group-");
    push_decimal(&mut r, (i + 1) as u64);
    r
}

/// Re-derive group provenance from a reflector's rewritten sections: each
/// `## Group` section keeps the id from its heading, merges the ranges of
/// the source groups whose lines it shares (else takes the group at its
/// index), and is marked `kind="reflection"`.
pub fn derive_group_provenance(content: &str, groups: &[ObservationGroup]) -> (r: Vec<ObservationGroup>)
    ensures
        group_views(r@) == derived(content@, group_views(groups@)),
{
    let ghost gs = group_views(groups@);
    let cv = chars_of(content);
    let secs = reflection_sections(&cv);
    let ghost ss = sections(content@);
    if secs.len() == 0 || groups.len() == 0 {
        return Vec::new();
    }
    let mut glines: Vec<Vec<Vec<char>>> = Vec::new();
    let mut ranges: Vec<Vec<char>> = Vec::new();
    let mut k: usize = 0;
    while k < groups.len()
        invariant
            k <= groups@.len() == gs.len(),
            gs == group_views(groups@),
            glines@.len() == k,
            ranges@.len() == k,
            forall|q: int| 0 <= q < k ==> #[trigger] ranges@[q]@ == gs[q].range,
            forall|q: int| 0 <= q < k ==> (#[trigger] glines@[q])@.len() == lines_of(gs[q].content).len(),
            forall|q: int, i: int| 0 <= q < k && 0 <= i < lines_of(gs[q].content).len() ==>
                (#[trigger] glines@[q]@[i])@ == trim(lines_of(gs[q].content)[i]),
        decreases groups@.len() - k,
    {
        let g = &groups[k];
        assert(gs[k as int] == g@);
        glines.push(trimmed_lines(&chars_of(g.content.as_str())));
        ranges.push(chars_of(g.range.as_str()));
        k = k + 1;
    }
    let mut out: Vec<ObservationGroup> = Vec::new();
    let mut i: usize = 0;
    while i < secs.len()
        invariant
            i <= secs@.len() == ss.len(),
            pair_views(secs@) == ss,
            ss == sections(content@),
            ss.len() > 0,
            gs.len() > 0,
            gs == group_views(groups@),
            glines@.len() == gs.len(),
            ranges@.len() == gs.len(),
            forall|q: int| 0 <= q < gs.len() ==> #[trigger] ranges@[q]@ == gs[q].range,
            forall|q: int| 0 <= q < gs.len() ==> (#[trigger] glines@[q])@.len() == lines_of(gs[q].content).len(),
            forall|q: int, j: int| 0 <= q < gs.len() && 0 <= j < lines_of(gs[q].content).len() ==>
                (#[trigger] glines@[q]@[j])@ == trim(lines_of(gs[q].content)[j]),
            group_views(out@) == derived(content@, gs).take(i as int),
        decreases secs@.len() - i,
    {
        let (h, b) = (&secs[i].0, &secs[i].1);
        assert(ss[i as int] == (h@, b@));
        let blines = trimmed_lines(b);
        let m = matching_group_ranges(&glines, &ranges, &blines, Ghost(gs), Ghost(b@));
        let resolved = if m.len() > 0 {
            m
        } else {
            let last = groups.len() - 1;
            let at = if i < last { i } else { last };
            let mut one: Vec<Vec<char>> = Vec::new();
            one.push(ranges[at].clone());
            assert(one@.map_values(|v: Vec<char>| v@) =~= seq![gs[at as int].range]);
            one
        };
        let range = combine_ranges(&resolved);
        let id = heading_id_exec(h, i);
        let g = ObservationGroup {
            id: string_of(&id),
            range: string_of(&range),
            kind: Some(String::from_str("reflection")),
            content: string_of(b),
        };
        let ghost before = group_views(out@);
        out.push(g);
        proof {
            reveal_strlit("reflection");
            assert(g@ == derived_group(ss[i as int], i as int, gs));
            assert(group_views(out@) =~= before.push(g@));
            assert(derived(content@, gs).take(i + 1) =~= derived(content@, gs).take(i as int).push(
                derived_group(ss[i as int], i as int, gs),
            ));
        }
        i = i + 1;
    }
    assert(derived(content@, gs).take(secs@.len() as int) =~= derived(content@, gs));
    out
}

/// The log a reflector's output commits: `None` when the source log has no
/// group; empty for blank output; the derived sections re-wrapped and
/// joined by blank lines; otherwise the whole output as one reflection
/// group over the merged source span.
pub open spec fn reconciled(content: Seq<char>, source: Seq<char>) -> Option<Seq<char>> {
    let gs = groups_of(source);
    let n = trim(content);
    if gs.len() == 0 {
        None
    } else if n.len() == 0 {
        Some(Seq::empty())
    } else {
        let d = derived(n, gs);
        if d.len() > 0 {
            Some(
                join(
                    d.map_values(|g: GroupSpec| wrapped(g.content, g.range, g.id, g.kind)),
                    "\n\n"@,
                ),
            )
        } else {
            Some(
                wrapped(
                    n,
                    combined(gs.map_values(|g: GroupSpec| g.range)),
                    group_id_of(n),
                    Some("reflection"@),
                ),
            )
        }
    }
}

/// Commit a reflector's output as the new log: re-wrap its sections as
/// `kind="reflection"` groups over the merged source ranges.
pub fn reconcile_groups_from_reflection(content: &str, source_observations: &str) -> (r: Option<String>)
    requires
        groups_ok(source_observations@),
    ensures
        match (r, reconciled(content@, source_observations@)) {
            (Some(x), Some(y)) => x@ == y,
            (None, None) => true,
            _ => false,
        },
{
    let source_groups = parse_observation_groups(source_observations);
    let ghost gs = groups_of(source_observations@);
    if source_groups.len() == 0 {
        return None;
    }
    let n = trim_chars(&chars_of(content));
    if n.len() == 0 {
        return Some(String::new());
    }
    let normalized = string_of(&n);
    let derived_groups = derive_group_provenance(normalized.as_str(), &source_groups);
    if derived_groups.len() > 0 {
        let ghost d = group_views(derived_groups@);
        let mut parts: Vec<Vec<char>> = Vec::new();
        let mut i: usize = 0;
        while i < derived_groups.len()
            invariant
                i <= derived_groups@.len(),
                d == group_views(derived_groups@),
                parts@.map_values(|v: Vec<char>| v@) == d.map_values(
                    |g: GroupSpec| wrapped(g.content, g.range, g.id, g.kind),
                ).take(i as int),
            decreases derived_groups@.len() - i,
        {
            let g = &derived_groups[i];
            let kind = match &g.kind {
                None => None,
                Some(k) => Some(k.as_str()),
            };
            let w = wrap_in_observation_group(g.content.as_str(), g.range.as_str(), g.id.as_str(), kind);
            let ghost before = parts@.map_values(|v: Vec<char>| v@);
            parts.push(chars_of(w.as_str()));
            proof {
                assert(d[i as int] == g@);
                assert(parts@.map_values(|v: Vec<char>| v@) =~= before.push(w@));
                assert(d.map_values(|g: GroupSpec| wrapped(g.content, g.range, g.id, g.kind)).take(i + 1)
                    =~= d.map_values(|g: GroupSpec| wrapped(g.content, g.range, g.id, g.kind)).take(
                    i as int,
                ).push(w@));
            }
            i = i + 1;
        }
        assert(d.map_values(|g: GroupSpec| wrapped(g.content, g.range, g.id, g.kind)).take(
            derived_groups@.len() as int,
        ) =~= d.map_values(|g: GroupSpec| wrapped(g.content, g.range, g.id, g.kind)));
        let sep = chars_of("\n\n");
        let joined = join_chars(&parts, &sep);
        return Some(string_of(&joined));
    }
    let range = crate::om::groups::combine_group_ranges(&source_groups);
    let id = generate_group_id(normalized.as_str());
    proof {
        assert(crate::om::groups::ranges_of(source_groups@) =~= gs.map_values(|g: GroupSpec| g.range));
    }
    Some(wrap_in_observation_group(normalized.as_str(), range.as_str(), id.as_str(), Some("reflection")))
}

} // verus!
